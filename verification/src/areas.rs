//! The 8-connected areas of highlighted pixels of a page image, and the
//! boxes that highlight detection keeps of them.

use vstd::prelude::*;
use crate::boxes::BoundingBox;
use crate::highlight::{
    PixelImage, spec_is_highlight_pixel, spec_classify_highlight_color, neighbour_dx, neighbour_dy, count_true,
    lemma_count_true_set, lemma_count_true_le,
};

verus! {

/// Pixel `p` (column, row) lies in the image and has a highlighter colour.
pub open spec fn hl_at(img: PixelImage, p: (u32, u32)) -> bool {
    &&& p.0 < img.spec_width() && p.1 < img.spec_height()
    &&& spec_is_highlight_pixel(
        img.pixel(p.0 as int, p.1 as int)[0],
        img.pixel(p.0 as int, p.1 as int)[1],
        img.pixel(p.0 as int, p.1 as int)[2],
    )
}

/// Two different pixels that share an edge or a corner.
pub open spec fn touching(a: (u32, u32), b: (u32, u32)) -> bool {
    &&& a != b
    &&& a.0 <= b.0 + 1 && b.0 <= a.0 + 1
    &&& a.1 <= b.1 + 1 && b.1 <= a.1 + 1
}

/// `a` comes before `b` in scan order: an earlier row, or the same row and
/// an earlier column.
pub open spec fn scan_before(a: (u32, u32), b: (u32, u32)) -> bool {
    a.1 < b.1 || (a.1 == b.1 && a.0 < b.0)
}

/// Pixel `p` is listed in `c`.
pub open spec fn in_area(c: Seq<(u32, u32)>, p: (u32, u32)) -> bool {
    exists|j: int| 0 <= j < c.len() && c[j] == p
}

/// The `j`-th pixel of `c` touches one listed before it.
pub open spec fn touches_before(c: Seq<(u32, u32)>, j: int) -> bool {
    exists|i: int| 0 <= i < j && touching(c[i], c[j])
}

/// An area listing: not empty, each pixel but the first touching an
/// earlier one (so the area is connected), the first pixel first in scan
/// order.
pub open spec fn area_shape(c: Seq<(u32, u32)>) -> bool {
    &&& c.len() > 0
    &&& forall|j: int| 0 < j < c.len() ==> #[trigger] touches_before(c, j)
    &&& forall|j: int| 0 < j < c.len() ==> scan_before(c[0], #[trigger] c[j])
}

/// `comps` lists the 8-connected areas of highlighted pixels: every pixel
/// listed is highlighted, every highlighted pixel is listed exactly once,
/// an area holds every highlighted pixel touching one of its pixels, each
/// area is connected and starts at its first pixel in scan order, and the
/// areas come in the scan order of those first pixels.
pub open spec fn highlight_areas(img: PixelImage, comps: Seq<Seq<(u32, u32)>>) -> bool {
    &&& forall|s: int, j: int|
        0 <= s < comps.len() && 0 <= j < comps[s].len() ==> hl_at(img, #[trigger] comps[s][j])
    &&& forall|p: (u32, u32)|
        #[trigger] hl_at(img, p) ==> exists|s: int| 0 <= s < comps.len() && #[trigger] in_area(comps[s], p)
    &&& forall|s1: int, j1: int, s2: int, j2: int|
        0 <= s1 < comps.len() && 0 <= j1 < comps[s1].len() && 0 <= s2 < comps.len() && 0 <= j2
            < comps[s2].len() && (s1 != s2 || j1 != j2) ==> #[trigger] comps[s1][j1] != #[trigger] comps[s2][j2]
    &&& forall|s: int, j: int, p: (u32, u32)|
        0 <= s < comps.len() && 0 <= j < comps[s].len() && #[trigger] touching(comps[s][j], p) && hl_at(img, p)
            ==> in_area(comps[s], p)
    &&& forall|s: int| 0 <= s < comps.len() ==> area_shape(#[trigger] comps[s])
    &&& forall|s1: int, s2: int|
        0 <= s1 < s2 < comps.len() ==> scan_before((#[trigger] comps[s1])[0], (#[trigger] comps[s2])[0])
}

/// Smallest column of an area.
pub open spec fn area_min_x(c: Seq<(u32, u32)>) -> u32
    decreases c.len(),
{
    if c.len() <= 1 {
        c[0].0
    } else {
        let m = area_min_x(c.drop_last());
        if c.last().0 < m { c.last().0 } else { m }
    }
}

/// Largest column of an area.
pub open spec fn area_max_x(c: Seq<(u32, u32)>) -> u32
    decreases c.len(),
{
    if c.len() <= 1 {
        c[0].0
    } else {
        let m = area_max_x(c.drop_last());
        if c.last().0 > m { c.last().0 } else { m }
    }
}

/// Smallest row of an area.
pub open spec fn area_min_y(c: Seq<(u32, u32)>) -> u32
    decreases c.len(),
{
    if c.len() <= 1 {
        c[0].1
    } else {
        let m = area_min_y(c.drop_last());
        if c.last().1 < m { c.last().1 } else { m }
    }
}

/// Largest row of an area.
pub open spec fn area_max_y(c: Seq<(u32, u32)>) -> u32
    decreases c.len(),
{
    if c.len() <= 1 {
        c[0].1
    } else {
        let m = area_max_y(c.drop_last());
        if c.last().1 > m { c.last().1 } else { m }
    }
}

/// Sum of channel `k` (0 red, 1 green, 2 blue) over the pixels of an area.
pub open spec fn area_sum(img: PixelImage, c: Seq<(u32, u32)>, k: int) -> int
    decreases c.len(),
{
    if c.len() == 0 {
        0
    } else {
        area_sum(img, c.drop_last(), k) + img.pixel(c.last().0 as int, c.last().1 as int)[k] as int
    }
}

/// An area large enough to count: at least 15 pixels wide, 8 high, and 30
/// pixels in all.
pub open spec fn area_passes(c: Seq<(u32, u32)>) -> bool {
    &&& area_max_x(c) - area_min_x(c) + 1 >= 15
    &&& area_max_y(c) - area_min_y(c) + 1 >= 8
    &&& c.len() >= 30
}

/// `b` is the box of area `c`: its extent, named by the colour class of the
/// area's average colour (each channel's sum divided by the pixel count).
pub open spec fn area_box_ok(img: PixelImage, c: Seq<(u32, u32)>, b: BoundingBox) -> bool {
    &&& b.min_x == area_min_x(c) && b.max_x == area_max_x(c)
    &&& b.min_y == area_min_y(c) && b.max_y == area_max_y(c)
    &&& b.highlight matches Some(n) && n@ == spec_classify_highlight_color(
        (area_sum(img, c, 0) / c.len() as int) as u8,
        (area_sum(img, c, 1) / c.len() as int) as u8,
        (area_sum(img, c, 2) / c.len() as int) as u8,
    )
}

/// The areas that count, in order.
pub open spec fn kept_areas(comps: Seq<Seq<(u32, u32)>>) -> Seq<Seq<(u32, u32)>>
    decreases comps.len(),
{
    if comps.len() == 0 {
        Seq::empty()
    } else {
        let k = kept_areas(comps.drop_last());
        if area_passes(comps.last()) { k.push(comps.last()) } else { k }
    }
}

/// `raw` holds the boxes of the areas that count, in order.
pub open spec fn boxes_of_areas(img: PixelImage, comps: Seq<Seq<(u32, u32)>>, raw: Seq<BoundingBox>) -> bool {
    &&& raw.len() == kept_areas(comps).len()
    &&& forall|k: int| 0 <= k < raw.len() ==> area_box_ok(img, kept_areas(comps)[k], #[trigger] raw[k])
}

/// An area of highlighter pixels that is kept: at least 15 pixels wide, 8
/// pixels high and 30 pixels in all.
pub open spec fn big_enough(c: Seq<(u32, u32)>) -> bool {
    area_max_x(c) + 1 >= area_min_x(c) + 15 && area_max_y(c) + 1 >= area_min_y(c) + 8 && c.len() >= 30
}

proof fn lemma_kept_filter(comps: Seq<Seq<(u32, u32)>>)
    ensures
        kept_areas(comps) == comps.filter(|c: Seq<(u32, u32)>| big_enough(c)),
        forall|k: int| 0 <= k < kept_areas(comps).len() ==> big_enough(#[trigger] kept_areas(comps)[k]),
    decreases comps.len(),
{
    reveal_with_fuel(Seq::filter, 1);
    if comps.len() > 0 {
        lemma_kept_filter(comps.drop_last());
        let k0 = kept_areas(comps.drop_last());
        if area_passes(comps.last()) {
            assert forall|k: int| 0 <= k < kept_areas(comps).len() implies big_enough(
                #[trigger] kept_areas(comps)[k],
            ) by {
                if k < k0.len() {
                    assert(kept_areas(comps)[k] == k0[k]);
                }
            }
        }
    }
}

/// Small specks are dropped and nothing else: the areas kept are exactly the
/// areas at least 15 pixels wide, 8 high and 30 pixels large, in their
/// order; so every box made of them is at least 15 by 8 pixels.
pub proof fn lemma_specks_dropped(img: PixelImage, comps: Seq<Seq<(u32, u32)>>, raw: Seq<BoundingBox>)
    ensures
        kept_areas(comps) == comps.filter(|c: Seq<(u32, u32)>| big_enough(c)),
        boxes_of_areas(img, comps, raw) ==> forall|k: int|
            0 <= k < raw.len() ==> (#[trigger] raw[k]).max_x + 1 >= raw[k].min_x + 15 && raw[k].max_y + 1
                >= raw[k].min_y + 8,
{
    lemma_kept_filter(comps);
    let kept = kept_areas(comps);
    if boxes_of_areas(img, comps, raw) {
        assert forall|k: int| 0 <= k < raw.len() implies (#[trigger] raw[k]).max_x + 1 >= raw[k].min_x + 15
            && raw[k].max_y + 1 >= raw[k].min_y + 8 by {
            assert(area_box_ok(img, kept[k], raw[k]));
            assert(big_enough(kept[k]));
        }
    }
}

/// Scan index of pixel `p` in rows of `w` pixels.
pub open spec fn ix(w: int, p: (u32, u32)) -> int {
    p.1 * w + p.0
}

pub open spec fn in_grid(w: int, h: int, p: (u32, u32)) -> bool {
    p.0 < w && p.1 < h
}

pub(crate) proof fn lemma_ix(w: int, h: int, p: (u32, u32))
    requires
        in_grid(w, h, p),
    ensures
        0 <= ix(w, p) < w * h,
{
    assert(0 <= p.1 * w + p.0 < w * h) by (nonlinear_arith)
        requires
            0 <= p.0 < w,
            0 <= p.1 < h,
    ;
}

pub(crate) proof fn lemma_ix_inj(w: int, h: int, p: (u32, u32), q: (u32, u32))
    requires
        in_grid(w, h, p),
        in_grid(w, h, q),
        ix(w, p) == ix(w, q),
    ensures
        p == q,
{
    if p != q {
        crate::highlight::lemma_pixel_index_distinct(w, p.0 as int, p.1 as int, q.0 as int, q.1 as int);
    }
}

/// The highlighted pixels touching `c` carry label `s`.
pub open spec fn nbrs8_done(img: PixelImage, lab: Seq<int>, c: (u32, u32), s: int) -> bool {
    forall|p: (u32, u32)| #[trigger] touching(c, p) && hl_at(img, p) ==> lab[ix(img.spec_width() as int, p)] == s
}

/// Every label is below `cur`: no area is being walked.
pub open spec fn none_walking(img: PixelImage, lab: Seq<int>, cur: int) -> bool {
    forall|p: (u32, u32)|
        in_grid(img.spec_width() as int, img.spec_height() as int, p) ==> #[trigger] lab[ix(
            img.spec_width() as int,
            p,
        )] < cur
}

/// Every highlighted pixel before `pos` in scan order has been visited.
pub open spec fn before_visited(img: PixelImage, visited: Seq<bool>, pos: (u32, u32)) -> bool {
    forall|p: (u32, u32)| #[trigger] hl_at(img, p) && scan_before(p, pos) ==> visited[ix(img.spec_width() as int, p)]
}

/// The first pixels of the listed areas all come before `pos`.
pub open spec fn seeds_before(comps: Seq<Seq<(u32, u32)>>, pos: (u32, u32)) -> bool {
    forall|s: int| 0 <= s < comps.len() ==> scan_before((#[trigger] comps[s])[0], pos)
}

/// The walk's labels: `lab` numbers each visited pixel's area (the area
/// being walked is the next number), `comps` lists the finished areas,
/// which are closed.
#[verifier::opaque]
pub open spec fn areas_ok(img: PixelImage, visited: Seq<bool>, lab: Seq<int>, comps: Seq<Seq<(u32, u32)>>) -> bool {
    let w = img.spec_width() as int;
    let h = img.spec_height() as int;
    &&& visited.len() == w * h && lab.len() == w * h
    &&& forall|p: (u32, u32)| in_grid(w, h, p) ==> (visited[ix(w, p)] <==> #[trigger] lab[ix(w, p)] >= 0)
    &&& forall|p: (u32, u32)|
        in_grid(w, h, p) && #[trigger] lab[ix(w, p)] >= 0 ==> hl_at(img, p) && lab[ix(w, p)] <= comps.len()
    &&& forall|s: int, j: int|
        0 <= s < comps.len() && 0 <= j < comps[s].len() ==> in_grid(w, h, #[trigger] comps[s][j]) && lab[ix(
            w,
            comps[s][j],
        )] == s
    &&& forall|s: int, j1: int, j2: int|
        0 <= s < comps.len() && 0 <= j1 < comps[s].len() && 0 <= j2 < comps[s].len() && j1 != j2
            ==> #[trigger] comps[s][j1] != #[trigger] comps[s][j2]
    &&& forall|p: (u32, u32)|
        in_grid(w, h, p) && 0 <= #[trigger] lab[ix(w, p)] < comps.len() ==> in_area(comps[lab[ix(w, p)]], p)
            && nbrs8_done(img, lab, p, lab[ix(w, p)])
    &&& forall|s: int| 0 <= s < comps.len() ==> area_shape(#[trigger] comps[s])
    &&& forall|s1: int, s2: int|
        0 <= s1 < s2 < comps.len() ==> scan_before((#[trigger] comps[s1])[0], (#[trigger] comps[s2])[0])
}

/// The area being walked from `seed`: its pixels are exactly those queued,
/// the first `head` have had their touching pixels taken, and each queued
/// pixel but the seed touches an earlier one and comes after the seed.
#[verifier::opaque]
pub open spec fn walk8_ok(img: PixelImage, lab: Seq<int>, cur: int, queue: Seq<(u32, u32)>, head: int, seed: (u32, u32)) -> bool {
    let w = img.spec_width() as int;
    let h = img.spec_height() as int;
    &&& queue.len() >= 1 && queue[0] == seed
    &&& forall|k: int| 0 <= k < queue.len() ==> in_grid(w, h, #[trigger] queue[k]) && lab[ix(w, queue[k])] == cur
    &&& forall|k1: int, k2: int| 0 <= k1 < k2 < queue.len() ==> #[trigger] queue[k1] != #[trigger] queue[k2]
    &&& forall|p: (u32, u32)| in_grid(w, h, p) && #[trigger] lab[ix(w, p)] == cur ==> in_area(queue, p)
    &&& forall|k: int| 0 <= k < head ==> nbrs8_done(img, lab, #[trigger] queue[k], cur)
    &&& forall|k: int| 0 < k < queue.len() ==> #[trigger] touches_before(queue, k)
    &&& forall|k: int| 0 < k < queue.len() ==> scan_before(seed, #[trigger] queue[k])
}

pub(crate) proof fn lemma_nbrs8_keep(img: PixelImage, old_lab: Seq<int>, lab: Seq<int>, q: (u32, u32), cur: int, c: (u32, u32), s: int)
    requires
        old_lab.len() == img.spec_width() as int * img.spec_height() as int,
        in_grid(img.spec_width() as int, img.spec_height() as int, q),
        old_lab[ix(img.spec_width() as int, q)] < 0,
        s >= 0,
        lab == old_lab.update(ix(img.spec_width() as int, q), cur),
        nbrs8_done(img, old_lab, c, s),
    ensures
        nbrs8_done(img, lab, c, s),
{
    let w = img.spec_width() as int;
    let h = img.spec_height() as int;
    lemma_ix(w, h, q);
    assert forall|r: (u32, u32)| #[trigger] touching(c, r) && hl_at(img, r) implies lab[ix(w, r)] == s by {
        lemma_ix(w, h, r);
    }
}

/// Labelling the fresh highlighted pixel `q` with `cur` keeps the labels
/// consistent.
pub(crate) proof fn lemma_label(
    img: PixelImage,
    old_visited: Seq<bool>,
    visited: Seq<bool>,
    old_lab: Seq<int>,
    lab: Seq<int>,
    comps: Seq<Seq<(u32, u32)>>,
    q: (u32, u32),
    cur: int,
)
    requires
        hl_at(img, q),
        !old_visited[ix(img.spec_width() as int, q)],
        cur == comps.len(),
        visited == old_visited.update(ix(img.spec_width() as int, q), true),
        lab == old_lab.update(ix(img.spec_width() as int, q), cur),
        areas_ok(img, old_visited, old_lab, comps),
    ensures
        areas_ok(img, visited, lab, comps),
        old_lab[ix(img.spec_width() as int, q)] < 0,
{
    reveal(areas_ok);
    let w = img.spec_width() as int;
    let h = img.spec_height() as int;
    let iq = ix(w, q);
    lemma_ix(w, h, q);
    assert(old_lab[iq] < 0);
    assert forall|p: (u32, u32)| in_grid(w, h, p) implies (visited[ix(w, p)] <==> #[trigger] lab[ix(w, p)] >= 0) by {
        lemma_ix(w, h, p);
    }
    assert forall|p: (u32, u32)| in_grid(w, h, p) && #[trigger] lab[ix(w, p)] >= 0 implies hl_at(img, p) && lab[ix(w, p)]
        <= comps.len() by {
        lemma_ix(w, h, p);
        if ix(w, p) == iq {
            lemma_ix_inj(w, h, p, q);
        }
    }
    assert forall|s: int, j: int| 0 <= s < comps.len() && 0 <= j < comps[s].len() implies in_grid(
        w,
        h,
        #[trigger] comps[s][j],
    ) && lab[ix(w, comps[s][j])] == s by {
        lemma_ix(w, h, comps[s][j]);
    }
    assert forall|p: (u32, u32)| in_grid(w, h, p) && 0 <= #[trigger] lab[ix(w, p)] < comps.len() implies in_area(
        comps[lab[ix(w, p)]],
        p,
    ) && nbrs8_done(img, lab, p, lab[ix(w, p)]) by {
        lemma_ix(w, h, p);
        assert(ix(w, p) != iq);
        assert(old_lab[ix(w, p)] == lab[ix(w, p)]);
        lemma_nbrs8_keep(img, old_lab, lab, q, cur, p, lab[ix(w, p)]);
    }
}

pub(crate) proof fn lemma_start8(
    img: PixelImage,
    old_visited: Seq<bool>,
    visited: Seq<bool>,
    old_lab: Seq<int>,
    lab: Seq<int>,
    comps: Seq<Seq<(u32, u32)>>,
    seed: (u32, u32),
    cur: int,
)
    requires
        hl_at(img, seed),
        !old_visited[ix(img.spec_width() as int, seed)],
        cur == comps.len(),
        visited == old_visited.update(ix(img.spec_width() as int, seed), true),
        lab == old_lab.update(ix(img.spec_width() as int, seed), cur),
        areas_ok(img, old_visited, old_lab, comps),
        none_walking(img, old_lab, cur),
    ensures
        areas_ok(img, visited, lab, comps),
        walk8_ok(img, lab, cur, seq![seed], 0, seed),
{
    lemma_label(img, old_visited, visited, old_lab, lab, comps, seed, cur);
    reveal(walk8_ok);
    reveal(areas_ok);
    let w = img.spec_width() as int;
    let h = img.spec_height() as int;
    let queue = seq![seed];
    lemma_ix(w, h, seed);
    assert forall|p: (u32, u32)| in_grid(w, h, p) && #[trigger] lab[ix(w, p)] == cur implies in_area(queue, p) by {
        lemma_ix(w, h, p);
        if ix(w, p) != ix(w, seed) {
            assert(old_lab[ix(w, p)] < cur);
        } else {
            lemma_ix_inj(w, h, p, seed);
            assert(queue[0] == p);
            assert(in_area(queue, p));
        }
    }
}

pub(crate) proof fn lemma_visit8(
    img: PixelImage,
    old_visited: Seq<bool>,
    visited: Seq<bool>,
    old_lab: Seq<int>,
    lab: Seq<int>,
    comps: Seq<Seq<(u32, u32)>>,
    old_queue: Seq<(u32, u32)>,
    queue: Seq<(u32, u32)>,
    q: (u32, u32),
    cur: int,
    head: int,
    parent: int,
    seed: (u32, u32),
)
    requires
        hl_at(img, q),
        !old_visited[ix(img.spec_width() as int, q)],
        cur == comps.len(),
        visited == old_visited.update(ix(img.spec_width() as int, q), true),
        lab == old_lab.update(ix(img.spec_width() as int, q), cur),
        queue == old_queue.push(q),
        areas_ok(img, old_visited, old_lab, comps),
        walk8_ok(img, old_lab, cur, old_queue, head, seed),
        0 <= head <= old_queue.len(),
        0 <= parent < old_queue.len(),
        touching(old_queue[parent], q),
        scan_before(seed, q),
    ensures
        areas_ok(img, visited, lab, comps),
        walk8_ok(img, lab, cur, queue, head, seed),
{
    lemma_label(img, old_visited, visited, old_lab, lab, comps, q, cur);
    reveal(walk8_ok);
    let w = img.spec_width() as int;
    let h = img.spec_height() as int;
    let iq = ix(w, q);
    lemma_ix(w, h, q);
    reveal(areas_ok);
    assert forall|k: int| 0 <= k < queue.len() implies in_grid(w, h, #[trigger] queue[k]) && lab[ix(w, queue[k])] == cur by {
        if k < old_queue.len() {
            assert(queue[k] == old_queue[k]);
            lemma_ix(w, h, old_queue[k]);
        }
    }
    assert forall|k1: int, k2: int| 0 <= k1 < k2 < queue.len() implies #[trigger] queue[k1] != #[trigger] queue[k2] by {
        assert(queue[k1] == old_queue[k1]);
        lemma_ix(w, h, old_queue[k1]);
        assert(old_lab[ix(w, old_queue[k1])] == cur);
        if k2 < old_queue.len() {
            assert(queue[k2] == old_queue[k2]);
        }
    }
    assert forall|p: (u32, u32)| in_grid(w, h, p) && #[trigger] lab[ix(w, p)] == cur implies in_area(queue, p) by {
        lemma_ix(w, h, p);
        if ix(w, p) == iq {
            lemma_ix_inj(w, h, p, q);
            assert(queue[old_queue.len() as int] == p);
        } else {
            assert(old_lab[ix(w, p)] == cur);
            assert(in_area(old_queue, p));
            let k = choose|k: int| 0 <= k < old_queue.len() && old_queue[k] == p;
            assert(queue[k] == p);
        }
    }
    assert forall|k: int| 0 <= k < head implies nbrs8_done(img, lab, #[trigger] queue[k], cur) by {
        assert(queue[k] == old_queue[k]);
        assert(nbrs8_done(img, old_lab, old_queue[k], cur));
        lemma_nbrs8_keep(img, old_lab, lab, q, cur, old_queue[k], cur);
    }
    assert forall|k: int| 0 < k < queue.len() implies #[trigger] touches_before(queue, k) by {
        if k < old_queue.len() {
            assert(touches_before(old_queue, k));
            let i = choose|i: int| 0 <= i < k && touching(old_queue[i], old_queue[k]);
            assert(queue[i] == old_queue[i] && queue[k] == old_queue[k]);
        } else {
            assert(queue[parent] == old_queue[parent]);
            assert(touching(queue[parent], queue[k]));
        }
    }
    assert forall|k: int| 0 < k < queue.len() implies scan_before(seed, #[trigger] queue[k]) by {
        if k < old_queue.len() {
            assert(queue[k] == old_queue[k]);
        }
    }
    assert(queue[0] == old_queue[0]);
}

/// Facts about a queued pixel.
pub(crate) proof fn lemma_queued8(
    img: PixelImage,
    visited: Seq<bool>,
    lab: Seq<int>,
    comps: Seq<Seq<(u32, u32)>>,
    cur: int,
    queue: Seq<(u32, u32)>,
    head: int,
    seed: (u32, u32),
    k: int,
)
    requires
        areas_ok(img, visited, lab, comps),
        walk8_ok(img, lab, cur, queue, head, seed),
        cur == comps.len(),
        0 <= k < queue.len(),
    ensures
        in_grid(img.spec_width() as int, img.spec_height() as int, queue[k]),
        lab[ix(img.spec_width() as int, queue[k])] == cur,
        hl_at(img, queue[k]),
        visited[ix(img.spec_width() as int, queue[k])],
        queue[0] == seed,
        queue.len() >= 1,
{
    reveal(areas_ok);
    reveal(walk8_ok);
    let w = img.spec_width() as int;
    let h = img.spec_height() as int;
    lemma_ix(w, h, queue[k]);
}

/// A visited highlighted pixel touching a pixel of the area being walked
/// belongs to that area: the finished areas are closed.
pub(crate) proof fn lemma_taken8(
    img: PixelImage,
    visited: Seq<bool>,
    lab: Seq<int>,
    comps: Seq<Seq<(u32, u32)>>,
    cur: int,
    c: (u32, u32),
    q: (u32, u32),
)
    requires
        areas_ok(img, visited, lab, comps),
        cur == comps.len(),
        in_grid(img.spec_width() as int, img.spec_height() as int, c),
        lab[ix(img.spec_width() as int, c)] == cur,
        hl_at(img, c),
        hl_at(img, q),
        touching(c, q),
        visited[ix(img.spec_width() as int, q)],
    ensures
        lab[ix(img.spec_width() as int, q)] == cur,
{
    reveal(areas_ok);
    let w = img.spec_width() as int;
    let h = img.spec_height() as int;
    lemma_ix(w, h, q);
    assert(lab[ix(w, q)] >= 0);
    if lab[ix(w, q)] < cur {
        assert(nbrs8_done(img, lab, q, lab[ix(w, q)]));
        assert(touching(q, c));
    }
}

/// The neighbour of `c` in direction `d`.
pub open spec fn dir_point(c: (u32, u32), d: int) -> (int, int) {
    (c.0 + neighbour_dx()[d], c.1 + neighbour_dy()[d])
}

/// The neighbour of `c` in direction `d`, if highlighted, carries label `s`.
pub open spec fn dir_done(img: PixelImage, lab: Seq<int>, c: (u32, u32), d: int, s: int) -> bool {
    let (nx, ny) = dir_point(c, d);
    (0 <= nx < img.spec_width() && 0 <= ny < img.spec_height() && hl_at(img, (nx as u32, ny as u32))) ==> lab[ix(
        img.spec_width() as int,
        (nx as u32, ny as u32),
    )] == s
}

pub(crate) proof fn lemma_dirs_done(img: PixelImage, lab: Seq<int>, c: (u32, u32), s: int)
    requires
        forall|d: int| 0 <= d < 8 ==> #[trigger] dir_done(img, lab, c, d, s),
    ensures
        nbrs8_done(img, lab, c, s),
{
    assert forall|p: (u32, u32)| #[trigger] touching(c, p) && hl_at(img, p) implies lab[ix(img.spec_width() as int, p)] == s by {
        let a = p.0 - c.0;
        let b = p.1 - c.1;
        let d: int = if b == -1 {
            a + 1
        } else if b == 0 {
            if a == -1 { 3 } else { 4 }
        } else {
            a + 6
        };
        assert(dir_done(img, lab, c, d, s));
        assert(dir_point(c, d) == (p.0 as int, p.1 as int));
    }
}

pub(crate) proof fn lemma_walk8_step(img: PixelImage, lab: Seq<int>, cur: int, queue: Seq<(u32, u32)>, head: int, seed: (u32, u32))
    requires
        walk8_ok(img, lab, cur, queue, head, seed),
        0 <= head < queue.len(),
        nbrs8_done(img, lab, queue[head], cur),
    ensures
        walk8_ok(img, lab, cur, queue, head + 1, seed),
{
    reveal(walk8_ok);
}

pub(crate) proof fn lemma_close8(
    img: PixelImage,
    visited: Seq<bool>,
    lab: Seq<int>,
    comps: Seq<Seq<(u32, u32)>>,
    queue: Seq<(u32, u32)>,
    cur: int,
    seed: (u32, u32),
)
    requires
        areas_ok(img, visited, lab, comps),
        walk8_ok(img, lab, cur, queue, queue.len() as int, seed),
        cur == comps.len(),
        seeds_before(comps, seed),
    ensures
        areas_ok(img, visited, lab, comps.push(queue)),
        none_walking(img, lab, cur + 1),
{
    reveal(areas_ok);
    reveal(walk8_ok);
    let w = img.spec_width() as int;
    let h = img.spec_height() as int;
    let nc = comps.push(queue);
    assert forall|s: int| 0 <= s < comps.len() implies #[trigger] nc[s] == comps[s] by {}
    assert(nc[cur] == queue);
    assert forall|p: (u32, u32)| in_grid(w, h, p) && #[trigger] lab[ix(w, p)] >= 0 implies hl_at(img, p) && lab[ix(w, p)]
        <= nc.len() by {}
    assert forall|s: int, j: int| 0 <= s < nc.len() && 0 <= j < nc[s].len() implies in_grid(w, h, #[trigger] nc[s][j])
        && lab[ix(w, nc[s][j])] == s by {
        if s < cur {
            assert(nc[s] == comps[s]);
        } else {
            assert(nc[s][j] == queue[j]);
        }
    }
    assert forall|s: int, j1: int, j2: int|
        0 <= s < nc.len() && 0 <= j1 < nc[s].len() && 0 <= j2 < nc[s].len() && j1 != j2 implies #[trigger] nc[s][j1]
        != #[trigger] nc[s][j2] by {
        if s < cur {
            assert(nc[s] == comps[s]);
        } else if j1 < j2 {
            assert(queue[j1] != queue[j2]);
        } else {
            assert(queue[j2] != queue[j1]);
        }
    }
    assert forall|p: (u32, u32)| in_grid(w, h, p) && 0 <= #[trigger] lab[ix(w, p)] < nc.len() implies in_area(
        nc[lab[ix(w, p)]],
        p,
    ) && nbrs8_done(img, lab, p, lab[ix(w, p)]) by {
        if lab[ix(w, p)] < cur {
            assert(nc[lab[ix(w, p)]] == comps[lab[ix(w, p)]]);
        } else {
            assert(in_area(queue, p));
            let k = choose|k: int| 0 <= k < queue.len() && queue[k] == p;
            assert(nbrs8_done(img, lab, queue[k], cur));
        }
    }
    assert forall|s: int| 0 <= s < nc.len() implies area_shape(#[trigger] nc[s]) by {
        if s < cur {
            assert(nc[s] == comps[s]);
        }
    }
    assert forall|s1: int, s2: int| 0 <= s1 < s2 < nc.len() implies scan_before(
        (#[trigger] nc[s1])[0],
        (#[trigger] nc[s2])[0],
    ) by {
        assert(nc[s1] == comps[s1]);
        if s2 < cur {
            assert(nc[s2] == comps[s2]);
        }
    }
    assert forall|p: (u32, u32)| in_grid(w, h, p) implies #[trigger] lab[ix(w, p)] < cur + 1 by {
        if lab[ix(w, p)] >= 0 {
        }
    }
}

pub(crate) proof fn lemma_finish8(img: PixelImage, visited: Seq<bool>, lab: Seq<int>, comps: Seq<Seq<(u32, u32)>>)
    requires
        areas_ok(img, visited, lab, comps),
        none_walking(img, lab, comps.len() as int),
        before_visited(img, visited, (0u32, img.spec_height())),
    ensures
        highlight_areas(img, comps),
{
    reveal(areas_ok);
    let w = img.spec_width() as int;
    let h = img.spec_height() as int;
    assert forall|s: int, j: int| 0 <= s < comps.len() && 0 <= j < comps[s].len() implies hl_at(img, #[trigger] comps[s][j]) by {
        assert(lab[ix(w, comps[s][j])] == s);
    }
    assert forall|p: (u32, u32)| #[trigger] hl_at(img, p) implies exists|s: int| 0 <= s < comps.len() && #[trigger] in_area(comps[s], p) by {
        assert(scan_before(p, (0u32, img.spec_height())));
        assert(visited[ix(w, p)]);
        assert(lab[ix(w, p)] >= 0);
        assert(lab[ix(w, p)] < comps.len());
        assert(in_area(comps[lab[ix(w, p)]], p));
    }
    assert forall|s1: int, j1: int, s2: int, j2: int|
        0 <= s1 < comps.len() && 0 <= j1 < comps[s1].len() && 0 <= s2 < comps.len() && 0 <= j2 < comps[s2].len() && (s1
            != s2 || j1 != j2) implies #[trigger] comps[s1][j1] != #[trigger] comps[s2][j2] by {
        assert(lab[ix(w, comps[s1][j1])] == s1);
        assert(lab[ix(w, comps[s2][j2])] == s2);
    }
    assert forall|s: int, j: int, p: (u32, u32)|
        0 <= s < comps.len() && 0 <= j < comps[s].len() && #[trigger] touching(comps[s][j], p) && hl_at(img, p)
        implies in_area(comps[s], p) by {
        let c = comps[s][j];
        assert(lab[ix(w, c)] == s);
        assert(nbrs8_done(img, lab, c, s));
        assert(lab[ix(w, p)] == s);
        assert(in_area(comps[lab[ix(w, p)]], p));
    }
}

pub(crate) proof fn lemma_kept_push(img: PixelImage, comps: Seq<Seq<(u32, u32)>>, c: Seq<(u32, u32)>, raw: Seq<BoundingBox>, b: BoundingBox)
    requires
        boxes_of_areas(img, comps, raw),
        area_passes(c) ==> area_box_ok(img, c, b),
    ensures
        boxes_of_areas(img, comps.push(c), if area_passes(c) { raw.push(b) } else { raw }),
{
    assert(comps.push(c).drop_last() =~= comps);
    assert(comps.push(c).last() == c);
    let k = kept_areas(comps);
    if area_passes(c) {
        let nr = raw.push(b);
        assert(kept_areas(comps.push(c)) == k.push(c));
        assert forall|i: int| 0 <= i < nr.len() implies area_box_ok(img, kept_areas(comps.push(c))[i], #[trigger] nr[i]) by {
            if i < raw.len() {
                assert(nr[i] == raw[i]);
                assert(area_box_ok(img, k[i], raw[i]));
            }
        }
    } else {
        assert(kept_areas(comps.push(c)) == k);
    }
}


/// The neighbour of `c` in each of the eight directions touches `c`.
pub(crate) proof fn lemma_dir_touch(c: (u32, u32), d: int)
    requires
        0 <= d < 8,
        0 <= dir_point(c, d).0 <= u32::MAX,
        0 <= dir_point(c, d).1 <= u32::MAX,
    ensures
        touching(c, (dir_point(c, d).0 as u32, dir_point(c, d).1 as u32)),
{
    let dx = neighbour_dx();
    let dy = neighbour_dy();
    assert(dx[0] == -1 && dx[1] == 0 && dx[2] == 1 && dx[3] == -1 && dx[4] == 1 && dx[5] == -1 && dx[6] == 0 && dx[7] == 1);
    assert(dy[0] == -1 && dy[1] == -1 && dy[2] == -1 && dy[3] == 0 && dy[4] == 0 && dy[5] == 1 && dy[6] == 1 && dy[7] == 1);
}

/// The walk's bookkeeping after `c`'s neighbour `q` was looked at: the new
/// labels, with `q` labelled if it is highlighted.
pub(crate) proof fn lemma_after_take8(
    img: PixelImage,
    old_visited: Seq<bool>,
    visited: Seq<bool>,
    old_lab: Seq<int>,
    comps: Seq<Seq<(u32, u32)>>,
    old_queue: Seq<(u32, u32)>,
    queue: Seq<(u32, u32)>,
    ci: int,
    seed: (u32, u32),
    q: (u32, u32),
    taken: bool,
) -> (lab: Seq<int>)
    requires
        areas_ok(img, old_visited, old_lab, comps),
        walk8_ok(img, old_lab, comps.len() as int, old_queue, ci, seed),
        0 <= ci < old_queue.len(),
        touching(old_queue[ci], q),
        in_grid(img.spec_width() as int, img.spec_height() as int, q),
        before_visited(img, old_visited, seed),
        taken == (hl_at(img, q) && !old_visited[ix(img.spec_width() as int, q)]),
        taken ==> visited == old_visited.update(ix(img.spec_width() as int, q), true) && queue == old_queue.push(q),
        !taken ==> visited == old_visited && queue == old_queue,
    ensures
        areas_ok(img, visited, lab, comps),
        walk8_ok(img, lab, comps.len() as int, queue, ci, seed),
        lab.len() == old_lab.len(),
        visited.len() == old_visited.len(),
        forall|p: (u32, u32)|
            in_grid(img.spec_width() as int, img.spec_height() as int, p) && old_lab[ix(img.spec_width() as int, p)]
                == comps.len() ==> #[trigger] lab[ix(img.spec_width() as int, p)] == comps.len(),
        hl_at(img, q) ==> lab[ix(img.spec_width() as int, q)] == comps.len(),
        forall|k: int| 0 <= k < old_queue.len() ==> #[trigger] queue[k] == old_queue[k],
        queue.len() == old_queue.len() + (if taken { 1int } else { 0int }),
        count_true(visited) == count_true(old_visited) + (if taken { 1int } else { 0int }),
        count_true(visited) <= visited.len(),
        before_visited(img, visited, seed),
{
    let w = img.spec_width() as int;
    let h = img.spec_height() as int;
    let cur = comps.len() as int;
    lemma_queued8(img, old_visited, old_lab, comps, cur, old_queue, ci, seed, ci);
    lemma_queued8(img, old_visited, old_lab, comps, cur, old_queue, ci, seed, 0);
    lemma_ix(w, h, q);
    reveal(areas_ok);
    if taken {
        let lab = old_lab.update(ix(w, q), cur);
        assert(!scan_before(q, seed));
        assert(q != seed);
        lemma_visit8(img, old_visited, visited, old_lab, lab, comps, old_queue, queue, q, cur, ci, ci, seed);
        lemma_count_true_set(old_visited, ix(w, q));
        lemma_count_true_le(visited);
        assert forall|p: (u32, u32)| in_grid(w, h, p) && old_lab[ix(w, p)] == cur implies #[trigger] lab[ix(w, p)] == cur by {
            lemma_ix(w, h, p);
        }
        assert forall|p: (u32, u32)| #[trigger] hl_at(img, p) && scan_before(p, seed) implies visited[ix(w, p)] by {
            lemma_ix(w, h, p);
        }
        lab
    } else {
        if hl_at(img, q) {
            lemma_taken8(img, old_visited, old_lab, comps, cur, old_queue[ci], q);
        }
        lemma_count_true_le(visited);
        old_lab
    }
}

/// The sums of an area grow by the colour of each pixel added.
pub(crate) proof fn lemma_area_sum_push(img: PixelImage, c: Seq<(u32, u32)>, p: (u32, u32), k: int)
    requires
        0 <= k < 3,
        area_sum(img, c, k) <= 255 * c.len(),
    ensures
        area_sum(img, c.push(p), k) == area_sum(img, c, k) + img.pixel(p.0 as int, p.1 as int)[k],
        area_sum(img, c.push(p), k) <= 255 * c.push(p).len(),
{
    assert(c.push(p).drop_last() =~= c);
}

/// Extending the dequeued prefix of an area by one pixel.
pub(crate) proof fn lemma_area_extent_step(q: Seq<(u32, u32)>, i: int)
    requires
        1 <= i < q.len(),
    ensures
        area_min_x(q.take(i + 1)) == (if q[i].0 < area_min_x(q.take(i)) { q[i].0 } else { area_min_x(q.take(i)) }),
        area_max_x(q.take(i + 1)) == (if q[i].0 > area_max_x(q.take(i)) { q[i].0 } else { area_max_x(q.take(i)) }),
        area_min_y(q.take(i + 1)) == (if q[i].1 < area_min_y(q.take(i)) { q[i].1 } else { area_min_y(q.take(i)) }),
        area_max_y(q.take(i + 1)) == (if q[i].1 > area_max_y(q.take(i)) { q[i].1 } else { area_max_y(q.take(i)) }),
{
    assert(q.take(i + 1).drop_last() =~= q.take(i));
    assert(q.take(i + 1).last() == q[i]);
}

} // verus!
