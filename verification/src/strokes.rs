//! Splitting the ink of a glyph mask into strokes: the 4-connected areas of
//! set pixels, found by a breadth-first walk in scan order.

use vstd::prelude::*;
use crate::highlight::{count_true, lemma_count_true_le, lemma_count_true_set, lemma_count_zero};

verus! {

/// One stroke: its pixels as (column, row), in the order the walk met
/// them, and its bounding box.
#[derive(Debug, Clone)]
pub struct StrokePixels {
    pub pixels: Vec<(usize, usize)>,
    pub min_x: usize,
    pub max_x: usize,
    pub min_y: usize,
    pub max_y: usize,
}

/// The (column, row) of index `p` in rows of `w` pixels.
pub open spec fn at(w: int, p: int) -> (usize, usize) {
    ((p % w) as usize, (p / w) as usize)
}

/// Two pixels that share an edge.
pub open spec fn adjacent(a: (usize, usize), b: (usize, usize)) -> bool {
    ||| a.1 == b.1 && (a.0 + 1 == b.0 || b.0 + 1 == a.0)
    ||| a.0 == b.0 && (a.1 + 1 == b.1 || b.1 + 1 == a.1)
}

/// The pixel `px` is one of the stroke's pixels.
pub open spec fn in_stroke(st: StrokePixels, px: (usize, usize)) -> bool {
    exists|j: int| 0 <= j < st.pixels@.len() && st.pixels@[j] == px
}

/// The strokes `strokes` cover the set pixels of `mask` exactly: each of
/// their pixels is set and inside the grid, each set pixel is in one of
/// them, and no pixel is in two places.
pub open spec fn covers_exactly(strokes: Seq<StrokePixels>, mask: Seq<bool>, w: int, h: int) -> bool {
    &&& forall|s: int, j: int|
        0 <= s < strokes.len() && 0 <= j < strokes[s].pixels@.len() ==> {
            let px = #[trigger] strokes[s].pixels@[j];
            &&& px.0 < w && px.1 < h
            &&& mask[px.1 * w + px.0]
        }
    &&& forall|p: int|
        0 <= p < mask.len() && #[trigger] mask[p] ==> exists|s: int, j: int|
            0 <= s < strokes.len() && 0 <= j < strokes[s].pixels@.len() && strokes[s].pixels@[j]
                == at(w, p)
    &&& forall|s1: int, j1: int, s2: int, j2: int|
        0 <= s1 < strokes.len() && 0 <= j1 < strokes[s1].pixels@.len() && 0 <= s2 < strokes.len()
            && 0 <= j2 < strokes[s2].pixels@.len() && (s1 != s2 || j1 != j2) ==> #[trigger] strokes[s1].pixels@[j1]
            != #[trigger] strokes[s2].pixels@[j2]
}

/// `px` is not empty and the box is the smallest one around its pixels.
pub open spec fn box_fits(px: Seq<(usize, usize)>, min_x: usize, max_x: usize, min_y: usize, max_y: usize) -> bool {
    &&& px.len() > 0
    &&& forall|j: int|
        0 <= j < px.len() ==> min_x <= (#[trigger] px[j]).0 <= max_x && min_y <= px[j].1 <= max_y
    &&& exists|j: int| 0 <= j < px.len() && (#[trigger] px[j]).0 == min_x
    &&& exists|j: int| 0 <= j < px.len() && (#[trigger] px[j]).0 == max_x
    &&& exists|j: int| 0 <= j < px.len() && (#[trigger] px[j]).1 == min_y
    &&& exists|j: int| 0 <= j < px.len() && (#[trigger] px[j]).1 == max_y
}

/// Each stroke has pixels, and its box is the smallest around them.
pub open spec fn boxes_exact(strokes: Seq<StrokePixels>) -> bool {
    forall|s: int|
        0 <= s < strokes.len() ==> box_fits(
            (#[trigger] strokes[s]).pixels@,
            strokes[s].min_x,
            strokes[s].max_x,
            strokes[s].min_y,
            strokes[s].max_y,
        )
}

/// No set pixel next to a stroke's pixel lies outside that stroke.
pub open spec fn strokes_closed(strokes: Seq<StrokePixels>, mask: Seq<bool>, w: int, h: int) -> bool {
    forall|s: int, j: int, x: usize, y: usize|
        #![trigger adjacent(strokes[s].pixels@[j], (x, y))]
        0 <= s < strokes.len() && 0 <= j < strokes[s].pixels@.len() && x < w && y < h && adjacent(
            strokes[s].pixels@[j],
            (x, y),
        ) && mask[y * w + x] ==> in_stroke(strokes[s], (x, y))
}

/// Each pixel of a stroke but its first shares an edge with a pixel met
/// before it: a stroke is one connected piece.
pub open spec fn strokes_connected(strokes: Seq<StrokePixels>) -> bool {
    forall|s: int, j: int|
        0 <= s < strokes.len() && 0 < j < strokes[s].pixels@.len() ==> #[trigger] touches_earlier(
            strokes[s].pixels@,
            j,
        )
}

/// The position of pixel `px` in scan order (rows of `w` pixels).
pub open spec fn scan_pos(w: int, px: (usize, usize)) -> int {
    px.1 * w + px.0
}

/// Each stroke starts at its first pixel in scan order, and the strokes come
/// in the scan order of those first pixels.
pub open spec fn strokes_in_scan_order(strokes: Seq<StrokePixels>, w: int) -> bool {
    &&& forall|s: int, j: int|
        0 <= s < strokes.len() && 0 < j < strokes[s].pixels@.len() ==> scan_pos(w, strokes[s].pixels@[0]) < scan_pos(
            w,
            #[trigger] strokes[s].pixels@[j],
        )
    &&& forall|s1: int, s2: int|
        0 <= s1 < s2 < strokes.len() ==> scan_pos(w, (#[trigger] strokes[s1]).pixels@[0]) < scan_pos(
            w,
            (#[trigger] strokes[s2]).pixels@[0],
        )
}

/// The `j`-th pixel shares an edge with one listed before it.
pub open spec fn touches_earlier(px: Seq<(usize, usize)>, j: int) -> bool {
    exists|i: int| 0 <= i < j && adjacent(px[i], px[j])
}

proof fn lemma_at(w: int, h: int, p: int)
    requires
        0 < w <= usize::MAX,
        h <= usize::MAX,
        0 <= p < w * h,
    ensures
        0 <= p % w < w,
        0 <= p / w < h,
        p == w * (p / w) + p % w,
        at(w, p).0 as int == p % w,
        at(w, p).1 as int == p / w,
        p % w > 0 ==> p >= 1 && (p - 1) % w == p % w - 1 && (p - 1) / w == p / w,
        p % w + 1 < w ==> p + 1 < w * h && (p + 1) % w == p % w + 1 && (p + 1) / w == p / w,
        p / w > 0 ==> p >= w && (p - w) % w == p % w && (p - w) / w == p / w - 1,
        p / w + 1 < h ==> p + w < w * h && (p + w) % w == p % w && (p + w) / w == p / w + 1,
{
    vstd::arithmetic::div_mod::lemma_fundamental_div_mod(p, w);
    let x = p % w;
    let y = p / w;
    vstd::arithmetic::mul::lemma_mul_is_commutative(w, y);
    assert(0 <= y < h) by (nonlinear_arith)
        requires
            0 < w,
            0 <= p < w * h,
            p == w * y + x,
            0 <= x < w,
    ;
    if x > 0 {
        vstd::arithmetic::div_mod::lemma_fundamental_div_mod_converse(p - 1, w, y, x - 1);
    }
    if x + 1 < w {
        vstd::arithmetic::div_mod::lemma_fundamental_div_mod_converse(p + 1, w, y, x + 1);
        assert(p + 1 < w * h) by (nonlinear_arith)
            requires
                0 < w,
                0 <= y < h,
                p == w * y + x,
                x + 1 < w,
        ;
    }
    if y > 0 {
        assert(p - w == (y - 1) * w + x && p >= w) by (nonlinear_arith)
            requires
                0 < w,
                p == w * y + x,
                y > 0,
                x >= 0,
        ;
        vstd::arithmetic::div_mod::lemma_fundamental_div_mod_converse(p - w, w, y - 1, x);
    }
    if y + 1 < h {
        assert(p + w == (y + 1) * w + x && p + w < w * h) by (nonlinear_arith)
            requires
                0 < w,
                p == w * y + x,
                0 <= x < w,
                y + 1 < h,
        ;
        vstd::arithmetic::div_mod::lemma_fundamental_div_mod_converse(p + w, w, y + 1, x);
    }
    assert(x == p % w && y == p / w);
    vstd::arithmetic::div_mod::lemma_fundamental_div_mod_converse(p, w, y, x);
}

/// The index of the pixel at (`x`, `y`).
proof fn lemma_index(w: int, h: int, x: int, y: int)
    requires
        0 <= x < w <= usize::MAX,
        0 <= y < h <= usize::MAX,
    ensures
        0 <= y * w + x < w * h,
        at(w, y * w + x) == (x as usize, y as usize),
{
    vstd::arithmetic::div_mod::lemma_fundamental_div_mod_converse(y * w + x, w, y, x);
    assert(0 <= y * w + x < w * h) by (nonlinear_arith)
        requires
            0 <= x < w,
            0 <= y < h,
    ;
}

/// Scan position of the pixel at index `p`: `p` itself.
proof fn lemma_scan_pos_at(w: int, h: int, p: int)
    requires
        0 <= w <= usize::MAX,
        0 <= h <= usize::MAX,
        0 <= p < w * h,
    ensures
        scan_pos(w, at(w, p)) == p,
{
    assert(w > 0) by (nonlinear_arith)
        requires
            0 <= p < w * h,
            w >= 0,
            h >= 0,
    ;
    lemma_at(w, h, p);
    vstd::arithmetic::mul::lemma_mul_is_commutative(w, p / w);
}

proof fn lemma_at_injective(w: int, h: int, p: int, q: int)
    requires
        0 < w <= usize::MAX,
        h <= usize::MAX,
        0 <= p < w * h,
        0 <= q < w * h,
        at(w, p) == at(w, q),
    ensures
        p == q,
{
    lemma_at(w, h, p);
    lemma_at(w, h, q);
    assert(p % w == q % w);
    assert(p / w == q / w);
}

/// The pixel at (`x`, `y`) next to the pixel of index `p` is one of the
/// four index neighbours of `p`.
proof fn lemma_adjacent_index(w: int, h: int, p: int, x: int, y: int)
    requires
        0 < w <= usize::MAX,
        h <= usize::MAX,
        0 <= p < w * h,
        0 <= x < w,
        0 <= y < h,
        adjacent(at(w, p), (x as usize, y as usize)),
    ensures
        ({
            let q = y * w + x;
            ||| q == p - 1 && p % w > 0
            ||| q == p + 1 && p % w + 1 < w
            ||| q == p - w && p / w > 0
            ||| q == p + w && p / w + 1 < h
        }),
{
    lemma_at(w, h, p);
    let a = p % w;
    let b = p / w;
    vstd::arithmetic::mul::lemma_mul_is_commutative(w, b);
    assert(p == b * w + a);
    if y == b - 1 {
        assert(y * w == b * w - w) by (nonlinear_arith)
            requires
                y == b - 1,
        ;
    }
    if y == b + 1 {
        assert(y * w == b * w + w) by (nonlinear_arith)
            requires
                y == b + 1,
        ;
    }
}

/// The set pixels among the four neighbours of index `p` carry label `s`.
spec fn nbrs_done(mask: Seq<bool>, w: int, h: int, sid: Seq<int>, p: int, s: int) -> bool {
    &&& (p % w > 0 && mask[p - 1]) ==> sid[p - 1] == s
    &&& (p % w + 1 < w && mask[p + 1]) ==> sid[p + 1] == s
    &&& (p / w > 0 && mask[p - w]) ==> sid[p - w] == s
    &&& (p / w + 1 < h && mask[p + w]) ==> sid[p + w] == s
}

/// What the walk has established: `sid` labels each visited pixel with its
/// stroke (the stroke being walked is the next number), `sidx` lists each
/// finished stroke's pixel indices, and finished strokes are closed.
#[verifier::opaque]
spec fn labels_ok(
    mask: Seq<bool>,
    w: int,
    h: int,
    visited: Seq<bool>,
    sid: Seq<int>,
    sidx: Seq<Seq<int>>,
    strokes: Seq<StrokePixels>,
) -> bool {
    let n = mask.len();
    &&& visited.len() == n && sid.len() == n
    &&& sidx.len() == strokes.len()
    &&& forall|p: int| 0 <= p < n ==> (#[trigger] visited[p] <==> sid[p] >= 0)
    &&& forall|p: int| 0 <= p < n && #[trigger] sid[p] >= 0 ==> mask[p] && sid[p] <= strokes.len()
    &&& forall|s: int| 0 <= s < strokes.len() ==> (#[trigger] sidx[s]).len() == strokes[s].pixels@.len()
    &&& forall|s: int, j: int|
        0 <= s < strokes.len() && 0 <= j < sidx[s].len() ==> {
            &&& 0 <= #[trigger] sidx[s][j] < n
            &&& sid[sidx[s][j]] == s
            &&& strokes[s].pixels@[j] == at(w, sidx[s][j])
        }
    &&& forall|s: int, j1: int, j2: int|
        0 <= s < strokes.len() && 0 <= j1 < sidx[s].len() && 0 <= j2 < sidx[s].len() && j1 != j2
            ==> #[trigger] sidx[s][j1] != #[trigger] sidx[s][j2]
    &&& forall|p: int|
        0 <= p < n && 0 <= #[trigger] sid[p] < strokes.len() ==> {
            &&& exists|j: int| 0 <= j < sidx[sid[p]].len() && sidx[sid[p]][j] == p
            &&& nbrs_done(mask, w, h, sid, p, sid[p])
        }
    &&& forall|s: int, j: int| 0 <= s < strokes.len() && 0 < j < sidx[s].len() ==> sidx[s][0] < #[trigger] sidx[s][j]
    &&& forall|s1: int, s2: int|
        0 <= s1 < s2 < strokes.len() ==> (#[trigger] sidx[s1])[0] < (#[trigger] sidx[s2])[0]
    &&& boxes_exact(strokes)
    &&& strokes_connected(strokes)
}

/// The pixels of the stroke being walked are exactly those queued.
#[verifier::opaque]
spec fn queue_ok(n: int, sid: Seq<int>, cur: int, queue: Seq<usize>) -> bool {
    &&& forall|k: int| 0 <= k < queue.len() ==> (#[trigger] queue[k]) < n && sid[queue[k] as int] == cur
    &&& forall|k1: int, k2: int|
        0 <= k1 < k2 < queue.len() ==> #[trigger] queue[k1] != #[trigger] queue[k2]
    &&& forall|p: int| 0 <= p < n && #[trigger] sid[p] == cur ==> exists|k: int| 0 <= k < queue.len() && queue[k] == p
}

/// The first `head` queued pixels have had their neighbours taken, and
/// each queued pixel but the first touches one queued before it.
#[verifier::opaque]
spec fn walk_ok(mask: Seq<bool>, w: int, h: int, sid: Seq<int>, cur: int, queue: Seq<usize>, head: int) -> bool {
    &&& forall|k: int| 0 <= k < head ==> nbrs_done(mask, w, h, sid, #[trigger] queue[k] as int, cur)
    &&& forall|k: int| 0 < k < queue.len() ==> #[trigger] linked(w, queue, k)
    &&& forall|k: int| 0 < k < queue.len() ==> queue[0] < #[trigger] queue[k]
}

/// The `k`-th queued pixel touches one queued before it.
spec fn linked(w: int, queue: Seq<usize>, k: int) -> bool {
    exists|i: int| 0 <= i < k && adjacent(at(w, queue[i] as int), at(w, queue[k] as int))
}

proof fn lemma_queue_facts(
    mask: Seq<bool>,
    w: int,
    h: int,
    visited: Seq<bool>,
    sid: Seq<int>,
    sidx: Seq<Seq<int>>,
    strokes: Seq<StrokePixels>,
    cur: int,
    queue: Seq<usize>,
    k: int,
)
    requires
        labels_ok(mask, w, h, visited, sid, sidx, strokes),
        queue_ok(mask.len() as int, sid, cur, queue),
        cur == strokes.len(),
        0 <= k < queue.len(),
    ensures
        queue[k] < mask.len(),
        sid[queue[k] as int] == cur,
        mask[queue[k] as int],
        visited[queue[k] as int],
{
    reveal(labels_ok);
    reveal(queue_ok);
    assert(sid[queue[k] as int] >= 0);
}

proof fn lemma_nbrs_keep(mask: Seq<bool>, w: int, h: int, old_sid: Seq<int>, sid: Seq<int>, q: int, cur: int, p: int, s: int)
    requires
        0 < w <= usize::MAX,
        h <= usize::MAX,
        mask.len() == w * h,
        old_sid.len() == mask.len(),
        0 <= q < mask.len(),
        0 <= p < mask.len(),
        old_sid[q] < 0,
        s >= 0,
        sid == old_sid.update(q, cur),
        nbrs_done(mask, w, h, old_sid, p, s),
        s == cur || (forall|r: int| 0 <= r < mask.len() && old_sid[r] == s ==> r != q),
    ensures
        nbrs_done(mask, w, h, sid, p, s),
{
    lemma_at(w, h, p);
}

proof fn lemma_visit(
    mask: Seq<bool>,
    w: int,
    h: int,
    old_visited: Seq<bool>,
    visited: Seq<bool>,
    old_sid: Seq<int>,
    sid: Seq<int>,
    sidx: Seq<Seq<int>>,
    strokes: Seq<StrokePixels>,
    old_queue: Seq<usize>,
    queue: Seq<usize>,
    q: int,
    cur: int,
    head: int,
    parent: int,
)
    requires
        0 < w <= usize::MAX,
        h <= usize::MAX,
        mask.len() == w * h,
        mask.len() <= usize::MAX,
        0 <= q < mask.len(),
        mask[q],
        !old_visited[q],
        cur == strokes.len(),
        visited == old_visited.update(q, true),
        sid == old_sid.update(q, cur),
        queue == old_queue.push(q as usize),
        labels_ok(mask, w, h, old_visited, old_sid, sidx, strokes),
        queue_ok(mask.len() as int, old_sid, cur, old_queue),
        0 <= head <= old_queue.len(),
        walk_ok(mask, w, h, old_sid, cur, old_queue, head),
        old_queue.len() == 0 || (0 <= parent < old_queue.len() && adjacent(
            at(w, old_queue[parent] as int),
            at(w, q),
        )),
        old_queue.len() > 0 ==> old_queue[0] < q,
    ensures
        labels_ok(mask, w, h, visited, sid, sidx, strokes),
        queue_ok(mask.len() as int, sid, cur, queue),
        walk_ok(mask, w, h, sid, cur, queue, head),
{
    reveal(labels_ok);
    reveal(queue_ok);
    reveal(walk_ok);
    let n = mask.len() as int;
    assert(old_sid[q] < 0);
    assert forall|p: int| 0 <= p < n implies (#[trigger] visited[p] <==> sid[p] >= 0) by {
        if p != q {
            assert(visited[p] == old_visited[p] && sid[p] == old_sid[p]);
        }
    }
    assert forall|p: int| 0 <= p < n && #[trigger] sid[p] >= 0 implies mask[p] && sid[p] <= strokes.len() by {
        if p != q {
            assert(sid[p] == old_sid[p]);
        }
    }
    assert forall|p: int| 0 <= p < n && 0 <= #[trigger] sid[p] < strokes.len() implies {
        &&& exists|j: int| 0 <= j < sidx[sid[p]].len() && sidx[sid[p]][j] == p
        &&& nbrs_done(mask, w, h, sid, p, sid[p])
    } by {
        assert(p != q);
        assert(old_sid[p] == sid[p]);
        assert(nbrs_done(mask, w, h, old_sid, p, old_sid[p]));
        lemma_nbrs_keep(mask, w, h, old_sid, sid, q, cur, p, sid[p]);
    }
    assert forall|s: int, j: int| 0 <= s < strokes.len() && 0 <= j < sidx[s].len() implies {
        &&& 0 <= #[trigger] sidx[s][j] < n
        &&& sid[sidx[s][j]] == s
        &&& strokes[s].pixels@[j] == at(w, sidx[s][j])
    } by {
        assert(old_sid[sidx[s][j]] == s);
        assert(sidx[s][j] != q);
    }
    assert forall|k: int| 0 <= k < queue.len() implies (#[trigger] queue[k]) < n && sid[queue[k] as int] == cur by {
        if k < old_queue.len() {
            assert(queue[k] == old_queue[k]);
            assert(old_sid[old_queue[k] as int] == cur);
            assert(old_queue[k] as int != q);
        } else {
            assert(queue[k] == q as usize);
        }
    }
    assert forall|k1: int, k2: int| 0 <= k1 < k2 < queue.len() implies #[trigger] queue[k1] != #[trigger] queue[k2] by {
        assert(queue[k1] == old_queue[k1]);
        assert(old_sid[old_queue[k1] as int] == cur);
        if k2 == old_queue.len() {
            assert(queue[k2] == q as usize);
        } else {
            assert(queue[k2] == old_queue[k2]);
        }
    }
    assert forall|p: int| 0 <= p < n && #[trigger] sid[p] == cur implies exists|k: int| 0 <= k < queue.len() && queue[k] == p by {
        if p == q {
            assert(queue[old_queue.len() as int] == q);
        } else {
            assert(old_sid[p] == cur);
            let k = choose|k: int| 0 <= k < old_queue.len() && old_queue[k] == p;
            assert(queue[k] == p);
        }
    }
    assert forall|k: int| 0 <= k < head implies nbrs_done(mask, w, h, sid, #[trigger] queue[k] as int, cur) by {
        assert(queue[k] == old_queue[k]);
        assert(nbrs_done(mask, w, h, old_sid, old_queue[k] as int, cur));
        lemma_nbrs_keep(mask, w, h, old_sid, sid, q, cur, old_queue[k] as int, cur);
    }
    assert forall|k: int| 0 < k < queue.len() implies #[trigger] linked(w, queue, k) by {
        if k < old_queue.len() {
            assert(linked(w, old_queue, k));
            assert(queue[k] == old_queue[k]);
            let i = choose|i: int| 0 <= i < k && adjacent(at(w, old_queue[i] as int), at(w, old_queue[k] as int));
            assert(queue[i] == old_queue[i]);
        } else {
            assert(queue[k] == q as usize);
            assert(queue[parent] == old_queue[parent]);
        }
    }
    assert forall|k: int| 0 < k < queue.len() implies queue[0] < #[trigger] queue[k] by {
        assert(queue[0] == old_queue[0]);
        if k < old_queue.len() {
            assert(queue[k] == old_queue[k]);
        }
    }
}

/// A visited set pixel next to a pixel of the stroke being walked belongs
/// to that stroke: the finished strokes are closed.
proof fn lemma_taken(
    mask: Seq<bool>,
    w: int,
    h: int,
    visited: Seq<bool>,
    sid: Seq<int>,
    sidx: Seq<Seq<int>>,
    strokes: Seq<StrokePixels>,
    cur: int,
    c: int,
    nb: int,
)
    requires
        0 < w <= usize::MAX,
        h <= usize::MAX,
        mask.len() == w * h,
        labels_ok(mask, w, h, visited, sid, sidx, strokes),
        cur == strokes.len(),
        0 <= c < mask.len(),
        sid[c] == cur,
        mask[c],
        0 <= nb < mask.len(),
        mask[nb],
        visited[nb],
        (nb == c - 1 && c % w > 0) || (nb == c + 1 && c % w + 1 < w) || (nb == c - w && c / w > 0) || (
        nb == c + w && c / w + 1 < h),
    ensures
        sid[nb] == cur,
{
    reveal(labels_ok);
    lemma_at(w, h, c);
    assert(sid[nb] >= 0);
    if sid[nb] < cur {
        assert(nbrs_done(mask, w, h, sid, nb, sid[nb]));
    }
}

proof fn lemma_walk_step(mask: Seq<bool>, w: int, h: int, sid: Seq<int>, cur: int, queue: Seq<usize>, head: int)
    requires
        walk_ok(mask, w, h, sid, cur, queue, head),
        0 <= head < queue.len(),
        nbrs_done(mask, w, h, sid, queue[head] as int, cur),
    ensures
        walk_ok(mask, w, h, sid, cur, queue, head + 1),
{
    reveal(walk_ok);
}

proof fn lemma_close_connected(w: int, old_strokes: Seq<StrokePixels>, strokes: Seq<StrokePixels>, queue: Seq<usize>, cur: int)
    requires
        cur == old_strokes.len(),
        strokes == old_strokes.push(strokes[cur]),
        strokes[cur].pixels@.len() == queue.len(),
        forall|j: int| 0 <= j < queue.len() ==> #[trigger] strokes[cur].pixels@[j] == at(w, queue[j] as int),
        forall|k: int| 0 < k < queue.len() ==> #[trigger] linked(w, queue, k),
        strokes_connected(old_strokes),
    ensures
        strokes_connected(strokes),
{
    assert forall|s: int, j: int| 0 <= s < strokes.len() && 0 < j < strokes[s].pixels@.len() implies #[trigger] touches_earlier(
        strokes[s].pixels@,
        j,
    ) by {
        if s < cur {
            assert(strokes[s] == old_strokes[s]);
            assert(touches_earlier(old_strokes[s].pixels@, j));
        } else {
            assert(strokes[cur].pixels@[j] == at(w, queue[j] as int));
            assert(linked(w, queue, j));
            let i = choose|i: int| 0 <= i < j && adjacent(at(w, queue[i] as int), at(w, queue[j] as int));
            assert(strokes[cur].pixels@[i] == at(w, queue[i] as int));
        }
    }
}

proof fn lemma_close_stroke(
    mask: Seq<bool>,
    w: int,
    h: int,
    visited: Seq<bool>,
    sid: Seq<int>,
    sidx: Seq<Seq<int>>,
    old_strokes: Seq<StrokePixels>,
    strokes: Seq<StrokePixels>,
    queue: Seq<usize>,
    cur: int,
)
    requires
        cur == old_strokes.len(),
        sidx.len() == cur + 1,
        sidx[cur] == queue.map_values(|u: usize| u as int),
        strokes == old_strokes.push(strokes[cur]),
        queue.len() > 0,
        strokes[cur].pixels@.len() == queue.len(),
        forall|j: int| 0 <= j < queue.len() ==> #[trigger] strokes[cur].pixels@[j] == at(w, queue[j] as int),
        box_fits(strokes[cur].pixels@, strokes[cur].min_x, strokes[cur].max_x, strokes[cur].min_y, strokes[cur].max_y),
        labels_ok(mask, w, h, visited, sid, sidx.drop_last(), old_strokes),
        queue_ok(mask.len() as int, sid, cur, queue),
        walk_ok(mask, w, h, sid, cur, queue, queue.len() as int),
        forall|s: int| 0 <= s < cur ==> (#[trigger] sidx[s])[0] < queue[0],
    ensures
        labels_ok(mask, w, h, visited, sid, sidx, strokes),
        queue_ok(mask.len() as int, sid, cur + 1, Seq::<usize>::empty()),
{
    reveal(labels_ok);
    reveal(queue_ok);
    reveal(walk_ok);
    let old_sidx0 = sidx.drop_last();
    assert forall|s: int, j: int| 0 <= s < strokes.len() && 0 < j < sidx[s].len() implies sidx[s][0] < #[trigger] sidx[s][j] by {
        if s < cur {
            assert(sidx[s] == old_sidx0[s]);
        } else {
            assert(sidx[s][j] == queue[j] as int && sidx[s][0] == queue[0] as int);
        }
    }
    assert forall|s1: int, s2: int| 0 <= s1 < s2 < strokes.len() implies (#[trigger] sidx[s1])[0] < (#[trigger] sidx[s2])[0] by {
        assert(sidx[s1] == old_sidx0[s1]);
        if s2 < cur {
            assert(sidx[s2] == old_sidx0[s2]);
        } else {
            assert(sidx[s2][0] == queue[0] as int);
        }
    }
    let n = mask.len() as int;
    let old_sidx = sidx.drop_last();
    assert forall|s: int| 0 <= s < cur implies #[trigger] sidx[s] == old_sidx[s] && strokes[s] == old_strokes[s] by {}
    assert forall|s: int| 0 <= s < strokes.len() implies (#[trigger] sidx[s]).len() == strokes[s].pixels@.len() by {
        if s < cur {
            assert(sidx[s] == old_sidx[s] && strokes[s] == old_strokes[s]);
        }
    }
    assert forall|s: int, j: int| 0 <= s < strokes.len() && 0 <= j < sidx[s].len() implies {
        &&& 0 <= #[trigger] sidx[s][j] < n
        &&& sid[sidx[s][j]] == s
        &&& strokes[s].pixels@[j] == at(w, sidx[s][j])
    } by {
        if s < cur {
            assert(sidx[s] == old_sidx[s] && strokes[s] == old_strokes[s]);
        } else {
            assert(sidx[s][j] == queue[j] as int);
        }
    }
    assert forall|s: int, j1: int, j2: int|
        0 <= s < strokes.len() && 0 <= j1 < sidx[s].len() && 0 <= j2 < sidx[s].len() && j1 != j2
        implies #[trigger] sidx[s][j1] != #[trigger] sidx[s][j2] by {
        if s < cur {
            assert(sidx[s] == old_sidx[s]);
        } else {
            assert(sidx[s][j1] == queue[j1] as int && sidx[s][j2] == queue[j2] as int);
            if j1 < j2 {
                assert(queue[j1] != queue[j2]);
            } else {
                assert(queue[j2] != queue[j1]);
            }
        }
    }
    assert forall|p: int| 0 <= p < n && 0 <= #[trigger] sid[p] < strokes.len() implies {
        &&& exists|j: int| 0 <= j < sidx[sid[p]].len() && sidx[sid[p]][j] == p
        &&& nbrs_done(mask, w, h, sid, p, sid[p])
    } by {
        if sid[p] < cur {
            assert(sidx[sid[p]] == old_sidx[sid[p]]);
        } else {
            let k = choose|k: int| 0 <= k < queue.len() && queue[k] == p;
            assert(sidx[cur][k] == p);
            assert(nbrs_done(mask, w, h, sid, queue[k] as int, cur));
        }
    }
    assert forall|s: int| 0 <= s < strokes.len() implies box_fits(
        (#[trigger] strokes[s]).pixels@,
        strokes[s].min_x,
        strokes[s].max_x,
        strokes[s].min_y,
        strokes[s].max_y,
    ) by {
        if s < cur {
            assert(strokes[s] == old_strokes[s]);
        }
    }
    lemma_close_connected(w, old_strokes, strokes, queue, cur);
}

proof fn lemma_finish(
    mask: Seq<bool>,
    w: int,
    h: int,
    visited: Seq<bool>,
    sid: Seq<int>,
    sidx: Seq<Seq<int>>,
    strokes: Seq<StrokePixels>,
)
    requires
        0 <= w <= usize::MAX,
        0 <= h <= usize::MAX,
        mask.len() == w * h,
        labels_ok(mask, w, h, visited, sid, sidx, strokes),
        queue_ok(mask.len() as int, sid, strokes.len() as int, Seq::<usize>::empty()),
        forall|p: int| 0 <= p < mask.len() && #[trigger] mask[p] ==> visited[p],
    ensures
        covers_exactly(strokes, mask, w, h),
        boxes_exact(strokes),
        strokes_closed(strokes, mask, w, h),
        strokes_connected(strokes),
        strokes_in_scan_order(strokes, w),
{
    reveal(labels_ok);
    reveal(queue_ok);
    assert forall|s: int, j: int| 0 <= s < strokes.len() && 0 < j < strokes[s].pixels@.len() implies scan_pos(
        w,
        strokes[s].pixels@[0],
    ) < scan_pos(w, #[trigger] strokes[s].pixels@[j]) by {
        lemma_scan_pos_at(w, h, sidx[s][0]);
        lemma_scan_pos_at(w, h, sidx[s][j]);
        assert(strokes[s].pixels@[0] == at(w, sidx[s][0]));
        assert(strokes[s].pixels@[j] == at(w, sidx[s][j]));
    }
    assert forall|s1: int, s2: int| 0 <= s1 < s2 < strokes.len() implies scan_pos(w, (#[trigger] strokes[s1]).pixels@[0])
        < scan_pos(w, (#[trigger] strokes[s2]).pixels@[0]) by {
        lemma_scan_pos_at(w, h, sidx[s1][0]);
        lemma_scan_pos_at(w, h, sidx[s2][0]);
        assert(strokes[s1].pixels@[0] == at(w, sidx[s1][0]));
        assert(strokes[s2].pixels@[0] == at(w, sidx[s2][0]));
    }
    let n = mask.len() as int;
    assert forall|s: int, j: int| 0 <= s < strokes.len() && 0 <= j < strokes[s].pixels@.len() implies {
        let px = #[trigger] strokes[s].pixels@[j];
        &&& px.0 < w && px.1 < h
        &&& mask[px.1 * w + px.0]
    } by {
        let p = sidx[s][j];
        assert(0 <= p < n && sid[p] == s);
        assert(w > 0) by (nonlinear_arith)
            requires
                0 <= p < w * h,
                w >= 0,
                h >= 0,
        ;
        lemma_at(w, h, p);
        vstd::arithmetic::mul::lemma_mul_is_commutative(w, p / w);
        let px = strokes[s].pixels@[j];
        assert(px == at(w, p));
        assert(px.1 * w + px.0 == p);
    }
    assert forall|p: int| 0 <= p < mask.len() && #[trigger] mask[p] implies exists|s: int, j: int|
        0 <= s < strokes.len() && 0 <= j < strokes[s].pixels@.len() && strokes[s].pixels@[j] == at(w, p) by {
        assert(visited[p]);
        assert(sid[p] >= 0);
        if sid[p] == strokes.len() {
            assert(false);
        }
        let s = sid[p];
        let j = choose|j: int| 0 <= j < sidx[s].len() && sidx[s][j] == p;
        assert(strokes[s].pixels@[j] == at(w, p));
    }
    assert forall|s1: int, j1: int, s2: int, j2: int|
        0 <= s1 < strokes.len() && 0 <= j1 < strokes[s1].pixels@.len() && 0 <= s2 < strokes.len()
            && 0 <= j2 < strokes[s2].pixels@.len() && (s1 != s2 || j1 != j2) implies #[trigger] strokes[s1].pixels@[j1]
            != #[trigger] strokes[s2].pixels@[j2] by {
        let p1 = sidx[s1][j1];
        let p2 = sidx[s2][j2];
        assert(sid[p1] == s1 && sid[p2] == s2);
        if strokes[s1].pixels@[j1] == strokes[s2].pixels@[j2] {
            assert(w > 0) by (nonlinear_arith)
                requires
                    0 <= p1 < w * h,
                    w >= 0,
                    h >= 0,
            ;
            lemma_at_injective(w, h, p1, p2);
        }
    }
    assert forall|s: int, j: int, x: usize, y: usize|
        #![trigger adjacent(strokes[s].pixels@[j], (x, y))]
        0 <= s < strokes.len() && 0 <= j < strokes[s].pixels@.len() && x < w && y < h && adjacent(
            strokes[s].pixels@[j],
            (x, y),
        ) && mask[y * w + x] implies in_stroke(strokes[s], (x, y)) by {
        let p = sidx[s][j];
        assert(0 <= p < n && sid[p] == s);
        assert(w > 0) by (nonlinear_arith)
            requires
                0 <= p < w * h,
                w >= 0,
                h >= 0,
        ;
        assert(strokes[s].pixels@[j] == at(w, p));
        lemma_adjacent_index(w, h, p, x as int, y as int);
        lemma_index(w, h, x as int, y as int);
        let q = y * w + x;
        assert(nbrs_done(mask, w, h, sid, p, s));
        assert(sid[q] == s);
        let j2 = choose|j2: int| 0 <= j2 < sidx[s].len() && sidx[s][j2] == q;
        assert(strokes[s].pixels@[j2] == (x, y));
    }
}


proof fn lemma_box_push(
    px: Seq<(usize, usize)>,
    x: usize,
    y: usize,
    min_x: usize,
    max_x: usize,
    min_y: usize,
    max_y: usize,
    new_min_x: usize,
    new_max_x: usize,
    new_min_y: usize,
    new_max_y: usize,
)
    requires
        px.len() == 0 ==> min_x == usize::MAX && max_x == 0 && min_y == usize::MAX && max_y == 0,
        px.len() > 0 ==> box_fits(px, min_x, max_x, min_y, max_y),
        new_min_x == (if x < min_x { x } else { min_x }),
        new_max_x == (if x > max_x { x } else { max_x }),
        new_min_y == (if y < min_y { y } else { min_y }),
        new_max_y == (if y > max_y { y } else { max_y }),
    ensures
        box_fits(px.push((x, y)), new_min_x, new_max_x, new_min_y, new_max_y),
{
    let npx = px.push((x, y));
    let last = px.len() as int;
    assert(npx[last] == (x, y));
    assert forall|j: int| 0 <= j < px.len() implies #[trigger] npx[j] == px[j] by {}
    if px.len() > 0 {
        let a = choose|j: int| 0 <= j < px.len() && (#[trigger] px[j]).0 == min_x;
        let b = choose|j: int| 0 <= j < px.len() && (#[trigger] px[j]).0 == max_x;
        let c = choose|j: int| 0 <= j < px.len() && (#[trigger] px[j]).1 == min_y;
        let d = choose|j: int| 0 <= j < px.len() && (#[trigger] px[j]).1 == max_y;
        assert(npx[a] == px[a] && npx[b] == px[b] && npx[c] == px[c] && npx[d] == px[d]);
    }
}

/// Takes pixel `q` into the stroke being walked if it is set and not yet
/// taken; says whether it did.
fn take_pixel(mask: &[bool], visited: &mut Vec<bool>, queue: &mut Vec<usize>, q: usize) -> (taken: bool)
    requires
        q < mask@.len(),
        old(visited)@.len() == mask@.len(),
    ensures
        taken == (mask@[q as int] && !old(visited)@[q as int]),
        taken ==> final(visited)@ == old(visited)@.update(q as int, true) && final(queue)@ == old(queue)@.push(q),
        !taken ==> final(visited)@ == old(visited)@ && final(queue)@ == old(queue)@,
{
    if mask[q] && !visited[q] {
        visited.set(q, true);
        queue.push(q);
        true
    } else {
        false
    }
}

/// The walk's bookkeeping after `take_pixel` looked at `q`, a neighbour of
/// the queued pixel `c`: the new labels, with `q` labelled if it is set.
proof fn lemma_after_take(
    mask: Seq<bool>,
    w: int,
    h: int,
    old_visited: Seq<bool>,
    visited: Seq<bool>,
    old_sid: Seq<int>,
    sidx: Seq<Seq<int>>,
    strokes: Seq<StrokePixels>,
    old_queue: Seq<usize>,
    queue: Seq<usize>,
    cur: int,
    ci: int,
    c: int,
    q: int,
    taken: bool,
) -> (sid: Seq<int>)
    requires
        0 < w <= usize::MAX,
        h <= usize::MAX,
        mask.len() == w * h,
        mask.len() <= usize::MAX,
        0 <= c < mask.len(),
        0 <= q < mask.len(),
        (q == c - 1 && c % w > 0) || (q == c + 1 && c % w + 1 < w) || (q == c - w && c / w > 0) || (q
            == c + w && c / w + 1 < h),
        cur == strokes.len(),
        old_sid.len() == mask.len(),
        old_visited.len() == mask.len(),
        labels_ok(mask, w, h, old_visited, old_sid, sidx, strokes),
        queue_ok(mask.len() as int, old_sid, cur, old_queue),
        0 <= ci < old_queue.len(),
        old_queue[ci] == c,
        walk_ok(mask, w, h, old_sid, cur, old_queue, ci),
        taken == (mask[q] && !old_visited[q]),
        taken ==> visited == old_visited.update(q, true) && queue == old_queue.push(q as usize),
        !taken ==> visited == old_visited && queue == old_queue,
        forall|p: int| 0 <= p < old_queue[0] && #[trigger] mask[p] ==> old_visited[p],
    ensures
        forall|p: int| 0 <= p < queue[0] && #[trigger] mask[p] ==> visited[p],
        labels_ok(mask, w, h, visited, sid, sidx, strokes),
        queue_ok(mask.len() as int, sid, cur, queue),
        walk_ok(mask, w, h, sid, cur, queue, ci),
        sid.len() == old_sid.len(),
        forall|r: int| 0 <= r < mask.len() && old_sid[r] == cur ==> #[trigger] sid[r] == cur,
        mask[q] ==> sid[q] == cur,
        count_true(visited) == count_true(old_visited) + (if taken { 1int } else { 0int }),
        count_true(visited) <= visited.len(),
        queue.len() == old_queue.len() + (if taken { 1int } else { 0int }),
        forall|k: int| 0 <= k < old_queue.len() ==> #[trigger] queue[k] == old_queue[k],
{
    lemma_queue_facts(mask, w, h, old_visited, old_sid, sidx, strokes, cur, old_queue, ci);
    lemma_queue_facts(mask, w, h, old_visited, old_sid, sidx, strokes, cur, old_queue, 0);
    lemma_at(w, h, c);
    if taken {
        let sid = old_sid.update(q, cur);
        assert(old_queue[0] < q);
        assert(queue[0] == old_queue[0]);
        lemma_count_true_set(old_visited, q);
        lemma_count_true_le(visited);
        lemma_adjacent_at(w, h, c, q);
        lemma_visit(mask, w, h, old_visited, visited, old_sid, sid, sidx, strokes, old_queue, queue, q, cur, ci, ci);
        sid
    } else {
        if mask[q] {
            lemma_taken(mask, w, h, old_visited, old_sid, sidx, strokes, cur, c, q);
        }
        lemma_count_true_le(visited);
        old_sid
    }
}

/// Index neighbours are pixels that share an edge.
proof fn lemma_adjacent_at(w: int, h: int, c: int, q: int)
    requires
        0 < w <= usize::MAX,
        h <= usize::MAX,
        0 <= c < w * h,
        (q == c - 1 && c % w > 0) || (q == c + 1 && c % w + 1 < w) || (q == c - w && c / w > 0) || (q
            == c + w && c / w + 1 < h),
    ensures
        adjacent(at(w, c), at(w, q)),
{
    lemma_at(w, h, c);
}

/// Takes the set, not yet taken pixels among the four neighbours of the
/// queued pixel `c` into the stroke being walked.
#[verifier::spinoff_prover]
#[verifier::rlimit(80)]
fn take_neighbours(
    mask: &[bool],
    width: usize,
    height: usize,
    visited: &mut Vec<bool>,
    queue: &mut Vec<usize>,
    c: usize,
    Ghost(sid0): Ghost<Seq<int>>,
    Ghost(sidx): Ghost<Seq<Seq<int>>>,
    Ghost(strokes): Ghost<Seq<StrokePixels>>,
    Ghost(ci): Ghost<int>,
) -> (sid: Ghost<Seq<int>>)
    requires
        mask@.len() == width * height,
        0 < width,
        0 <= ci < old(queue)@.len(),
        old(queue)@[ci] == c,
        old(visited)@.len() == mask@.len(),
        sid0.len() == mask@.len(),
        labels_ok(mask@, width as int, height as int, old(visited)@, sid0, sidx, strokes),
        queue_ok(mask@.len() as int, sid0, strokes.len() as int, old(queue)@),
        walk_ok(mask@, width as int, height as int, sid0, strokes.len() as int, old(queue)@, ci),
        forall|p: int| 0 <= p < old(queue)@[0] && #[trigger] mask@[p] ==> old(visited)@[p],
    ensures
        forall|p: int| 0 <= p < final(queue)@[0] && #[trigger] mask@[p] ==> final(visited)@[p],
        final(visited)@.len() == mask@.len(),
        sid@.len() == mask@.len(),
        labels_ok(mask@, width as int, height as int, final(visited)@, sid@, sidx, strokes),
        queue_ok(mask@.len() as int, sid@, strokes.len() as int, final(queue)@),
        walk_ok(mask@, width as int, height as int, sid@, strokes.len() as int, final(queue)@, ci + 1),
        count_true(final(visited)@) == count_true(old(visited)@) + final(queue)@.len() - old(queue)@.len(),
        count_true(final(visited)@) <= mask@.len(),
        old(queue)@.len() <= final(queue)@.len(),
        forall|k: int| 0 <= k < old(queue)@.len() ==> #[trigger] final(queue)@[k] == old(queue)@[k],
        forall|p: int| 0 <= p < mask@.len() && old(visited)@[p] ==> #[trigger] final(visited)@[p],
{
    let ghost w = width as int;
    let ghost h = height as int;
    let ghost cur = strokes.len() as int;
    let n = mask.len();
    proof {
        lemma_queue_facts(mask@, w, h, visited@, sid0, sidx, strokes, cur, queue@, ci);
        lemma_at(w, h, c as int);
        lemma_count_true_le(visited@);
    }
    let x = c % width;
    let y = c / width;
    let ghost mut sid = sid0;
    let ghost v0 = visited@;
    let ghost q0 = queue@;
    if x > 0 {
        let ghost (ov, oq, os) = (visited@, queue@, sid);
        let taken = take_pixel(mask, visited, queue, c - 1);
        proof {
            sid = lemma_after_take(mask@, w, h, ov, visited@, os, sidx, strokes, oq, queue@, cur, ci, c as int, c - 1, taken);
        }
    }
    let ghost sid1 = sid;
    let ghost v1 = visited@;
    let ghost q1 = queue@;
    if x + 1 < width {
        let ghost (ov, oq, os) = (visited@, queue@, sid);
        let taken = take_pixel(mask, visited, queue, c + 1);
        proof {
            sid = lemma_after_take(mask@, w, h, ov, visited@, os, sidx, strokes, oq, queue@, cur, ci, c as int, c + 1, taken);
        }
    }
    let ghost sid2 = sid;
    let ghost v2 = visited@;
    let ghost q2 = queue@;
    if y > 0 {
        let ghost (ov, oq, os) = (visited@, queue@, sid);
        let taken = take_pixel(mask, visited, queue, c - width);
        proof {
            sid = lemma_after_take(mask@, w, h, ov, visited@, os, sidx, strokes, oq, queue@, cur, ci, c as int, c - w, taken);
        }
    }
    let ghost sid3 = sid;
    let ghost v3 = visited@;
    let ghost q3 = queue@;
    if y + 1 < height {
        let ghost (ov, oq, os) = (visited@, queue@, sid);
        let taken = take_pixel(mask, visited, queue, c + width);
        proof {
            sid = lemma_after_take(mask@, w, h, ov, visited@, os, sidx, strokes, oq, queue@, cur, ci, c as int, c + w, taken);
        }
    }
    proof {
        assert(x > 0 && mask@[c - 1] ==> sid[c - 1] == cur) by {
            if x > 0 && mask@[c - 1] {
                assert(sid1[c - 1] == cur);
                assert(sid2[c - 1] == cur);
                assert(sid3[c - 1] == cur);
            }
        }
        assert(x + 1 < width && mask@[c + 1] ==> sid[c + 1] == cur) by {
            if x + 1 < width && mask@[c + 1] {
                assert(sid2[c + 1] == cur);
                assert(sid3[c + 1] == cur);
            }
        }
        assert(y > 0 && mask@[c - w] ==> sid[c - w] == cur) by {
            if y > 0 && mask@[c - w] {
                assert(sid3[c - w] == cur);
            }
        }
        assert(nbrs_done(mask@, w, h, sid, c as int, cur));
        assert(queue@[ci] == c);
        lemma_walk_step(mask@, w, h, sid, cur, queue@, ci);
        assert(forall|k: int| 0 <= k < q0.len() ==> #[trigger] queue@[k] == q0[k]) by {
            assert(forall|k: int| 0 <= k < q0.len() ==> #[trigger] q1[k] == q0[k]);
            assert(forall|k: int| 0 <= k < q1.len() ==> #[trigger] q2[k] == q1[k]);
            assert(forall|k: int| 0 <= k < q2.len() ==> #[trigger] q3[k] == q2[k]);
        }
        assert(forall|p: int| 0 <= p < n && v0[p] ==> #[trigger] visited@[p]) by {
            assert(forall|p: int| 0 <= p < n && v0[p] ==> #[trigger] v1[p]);
            assert(forall|p: int| 0 <= p < n && v1[p] ==> #[trigger] v2[p]);
            assert(forall|p: int| 0 <= p < n && v2[p] ==> #[trigger] v3[p]);
        }
    }
    Ghost(sid)
}

/// Splits the set pixels of a `width` by `height` mask into strokes: each
/// stroke is grown from the first set pixel not yet taken (in scan order)
/// through its left, right, upper and lower neighbours.
#[verifier::rlimit(40)]
pub fn label_strokes(mask: &[bool], width: usize, height: usize) -> (r: Vec<StrokePixels>)
    requires
        mask@.len() == width * height,
    ensures
        covers_exactly(r@, mask@, width as int, height as int),
        boxes_exact(r@),
        strokes_closed(r@, mask@, width as int, height as int),
        strokes_connected(r@),
        strokes_in_scan_order(r@, width as int),
{
    let n = mask.len();
    let ghost w = width as int;
    let ghost h = height as int;
    let mut visited: Vec<bool> = Vec::new();
    let mut k: usize = 0;
    while k < n
        invariant
            k <= n,
            visited@.len() == k,
            forall|i: int| 0 <= i < k ==> !#[trigger] visited@[i],
        decreases n - k,
    {
        visited.push(false);
        k += 1;
    }
    let ghost mut sid: Seq<int> = Seq::new(n as nat, |i: int| -1int);
    let ghost mut sidx: Seq<Seq<int>> = Seq::empty();
    let ghost mut cnt: nat = 0;
    let mut strokes: Vec<StrokePixels> = Vec::new();
    proof {
        lemma_count_zero(visited@);
        reveal(labels_ok);
        reveal(queue_ok);
        assert(labels_ok(mask@, w, h, visited@, sid, sidx, strokes@));
        assert(queue_ok(n as int, sid, 0, Seq::<usize>::empty()));
    }
    let mut idx: usize = 0;
    while idx < n
        invariant
            n == mask@.len(),
            n == w * h,
            w == width as int,
            h == height as int,
            idx <= n,
            visited@.len() == n,
            sid.len() == n,
            sidx.len() == strokes@.len(),
            cnt == count_true(visited@),
            labels_ok(mask@, w, h, visited@, sid, sidx, strokes@),
            queue_ok(n as int, sid, strokes@.len() as int, Seq::<usize>::empty()),
            forall|p: int| 0 <= p < idx && #[trigger] mask@[p] ==> visited@[p],
            forall|s: int| 0 <= s < sidx.len() ==> (#[trigger] sidx[s])[0] < idx,
        decreases n - idx,
    {
        if mask[idx] && !visited[idx] {
            assert(w > 0) by (nonlinear_arith)
                requires
                    0 <= idx < w * h,
                    w >= 0,
                    h >= 0,
            ;
            let ghost cur = strokes@.len() as int;
            let mut queue: Vec<usize> = Vec::new();
            proof {
                lemma_count_true_set(visited@, idx as int);
                lemma_count_true_le(visited@.update(idx as int, true));
                reveal(walk_ok);
                assert(walk_ok(mask@, w, h, sid, cur, queue@, 0));
            }
            let ghost old_sid = sid;
            let ghost old_queue = queue@;
            let ghost old_visited = visited@;
            visited.set(idx, true);
            proof {
                sid = sid.update(idx as int, cur);
                cnt = cnt + 1;
            }
            queue.push(idx);
            proof {
                lemma_visit(mask@, w, h, old_visited, visited@, old_sid, sid, sidx, strokes@, old_queue, queue@, idx as int, cur, 0, 0);
            }
            let mut pixels: Vec<(usize, usize)> = Vec::new();
            let mut min_x: usize = usize::MAX;
            let mut max_x: usize = 0;
            let mut min_y: usize = usize::MAX;
            let mut max_y: usize = 0;
            let mut head: usize = 0;
            while head < queue.len()
                invariant
                    n == mask@.len(),
                    n == w * h,
                    w == width as int,
                    h == height as int,
                    0 < w,
                    idx < n,
                    visited@.len() == n,
                    sid.len() == n,
                    sidx.len() == strokes@.len(),
                    cur == strokes@.len(),
                    cnt == count_true(visited@),
                    cnt <= n,
                    1 <= queue@.len(),
                    head <= queue@.len(),
                    labels_ok(mask@, w, h, visited@, sid, sidx, strokes@),
                    queue_ok(n as int, sid, cur, queue@),
                    walk_ok(mask@, w, h, sid, cur, queue@, head as int),
                    queue@[0] == idx,
                    forall|s: int| 0 <= s < sidx.len() ==> (#[trigger] sidx[s])[0] < idx,
                    forall|p: int| 0 <= p < idx && #[trigger] mask@[p] ==> visited@[p],
                    visited@[idx as int],
                    pixels@.len() == head,
                    forall|j: int| 0 <= j < head ==> #[trigger] pixels@[j] == at(w, queue@[j] as int),
                    head == 0 ==> min_x == usize::MAX && max_x == 0 && min_y == usize::MAX && max_y == 0,
                    head > 0 ==> box_fits(pixels@, min_x, max_x, min_y, max_y),
                decreases n - cnt, queue@.len() - head,
            {
                let c = queue[head];
                proof {
                    lemma_queue_facts(mask@, w, h, visited@, sid, sidx, strokes@, cur, queue@, head as int);
                    lemma_at(w, h, c as int);
                }
                let ghost ci = head as int;
                head += 1;
                let x = c % width;
                let y = c / width;
                let ghost old_pixels = pixels@;
                let ghost (ox0, ox1, oy0, oy1) = (min_x, max_x, min_y, max_y);
                pixels.push((x, y));
                if x < min_x {
                    min_x = x;
                }
                if x > max_x {
                    max_x = x;
                }
                if y < min_y {
                    min_y = y;
                }
                if y > max_y {
                    max_y = y;
                }
                proof {
                    lemma_box_push(old_pixels, x, y, ox0, ox1, oy0, oy1, min_x, max_x, min_y, max_y);
                    assert(pixels@[ci] == at(w, c as int));
                    assert(forall|j: int| 0 <= j < ci ==> #[trigger] pixels@[j] == old_pixels[j]);
                }
                let ghost oq = queue@;
                let sid_after = take_neighbours(mask, width, height, &mut visited, &mut queue, c, Ghost(sid), Ghost(sidx), Ghost(strokes@), Ghost(ci));
                proof {
                    sid = sid_after@;
                    cnt = count_true(visited@);
                    assert(forall|j: int| 0 <= j < head ==> #[trigger] pixels@[j] == at(w, queue@[j] as int)) by {
                        assert(forall|j: int| 0 <= j < oq.len() ==> #[trigger] queue@[j] == oq[j]);
                    }
                }
            }
            let ghost stroke_idx = queue@.map_values(|u: usize| u as int);
            let ghost old_strokes = strokes@;
            let ghost old_sidx = sidx;
            strokes.push(StrokePixels { pixels, min_x, max_x, min_y, max_y });
            proof {
                sidx = sidx.push(stroke_idx);
                assert(sidx.drop_last() =~= old_sidx);
                assert forall|s: int| 0 <= s < cur implies (#[trigger] sidx[s])[0] < queue@[0] by {
                    assert(sidx[s] == old_sidx[s]);
                }
                lemma_close_stroke(mask@, w, h, visited@, sid, sidx, old_strokes, strokes@, queue@, cur);
                assert(sidx[cur][0] == idx);
            }
        }
        idx += 1;
    }
    proof {
        lemma_finish(mask@, w, h, visited@, sid, sidx, strokes@);
    }
    strokes
}

} // verus!
