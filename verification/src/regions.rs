//! Pairing the highlighted boxes of a page with its text tags: each box gets
//! the role of its colour, takes the tags it overlaps that no earlier box has
//! taken, and uses the text of the last of those that has text.

use vstd::prelude::*;
use crate::boxes::{BoundingBox, spec_width, spec_height};
use crate::styles::{StyleRegistry, register};

verus! {

/// The rectangle of a text tag on a page, and whether the tag has text.
#[derive(Debug, Clone, Copy, PartialEq, Eq)]
pub struct TagArea {
    pub x: i32,
    pub y: i32,
    pub w: i32,
    pub h: i32,
    pub has_text: bool,
}

/// Length of the common part of the spans `[a0, a1)` and `[b0, b1)`,
/// negative where they are apart.
pub open spec fn span_overlap(a0: int, a1: int, b0: int, b1: int) -> int {
    (if a1 <= b1 { a1 } else { b1 }) - (if a0 >= b0 { a0 } else { b0 })
}

/// The box and the tag share an area of positive size.
pub open spec fn box_meets_tag(b: BoundingBox, t: TagArea) -> bool {
    &&& span_overlap(b.min_x as int, b.min_x + spec_width(b), t.x as int, t.x + t.w) > 0
    &&& span_overlap(b.min_y as int, b.min_y + spec_height(b), t.y as int, t.y + t.h) > 0
}

pub open spec fn fits_i32(v: int) -> bool {
    i32::MIN <= v <= i32::MAX
}

/// The box's corner and far edges are 32-bit signed coordinates.
pub open spec fn box_fits(b: BoundingBox) -> bool {
    b.min_x + spec_width(b) <= i32::MAX && b.min_y + spec_height(b) <= i32::MAX
}

/// The tag's far edges, and its overlap with the box along each axis, are
/// 32-bit signed values.
pub open spec fn pair_fits(b: BoundingBox, t: TagArea) -> bool {
    &&& fits_i32(t.x + t.w)
    &&& fits_i32(t.y + t.h)
    &&& fits_i32(span_overlap(b.min_x as int, b.min_x + spec_width(b), t.x as int, t.x + t.w))
    &&& fits_i32(span_overlap(b.min_y as int, b.min_y + spec_height(b), t.y as int, t.y + t.h))
}

/// Box `b` looks at the first `k` tags: each one not yet taken that it meets
/// is taken, and the last of these with text is the one whose text it uses.
pub open spec fn claim(b: BoundingBox, tags: Seq<TagArea>, taken: Seq<bool>, k: int) -> (
    Seq<bool>,
    Option<usize>,
)
    decreases k,
{
    if k <= 0 {
        (taken, None)
    } else {
        let (t, c) = claim(b, tags, taken, k - 1);
        if !t[k - 1] && box_meets_tag(b, tags[k - 1]) {
            (t.update(k - 1, true), if tags[k - 1].has_text { Some((k - 1) as usize) } else { c })
        } else {
            (t, c)
        }
    }
}

/// The role of a box: that of its colour, registered when new, or 0 for a
/// box without colour.
pub open spec fn box_role(keys: Seq<Seq<char>>, b: BoundingBox) -> (Seq<Seq<char>>, int) {
    match b.highlight {
        Some(c) => register(keys, c@),
        None => (keys, 0),
    }
}

/// After the first `n` boxes: for each box its role and the tag whose text
/// it uses, the registered colours, and which tags are taken.
pub open spec fn pair_regions(
    boxes: Seq<BoundingBox>,
    tags: Seq<TagArea>,
    keys: Seq<Seq<char>>,
    n: int,
) -> (Seq<(u32, Option<usize>)>, Seq<Seq<char>>, Seq<bool>)
    decreases n,
{
    if n <= 0 {
        (Seq::empty(), keys, Seq::new(tags.len(), |i: int| false))
    } else {
        let (out, ks, taken) = pair_regions(boxes, tags, keys, n - 1);
        let (ks2, role) = box_role(ks, boxes[n - 1]);
        let (taken2, chosen) = claim(boxes[n - 1], tags, taken, tags.len() as int);
        (out.push((role as u32, chosen)), ks2, taken2)
    }
}

proof fn lemma_claim(b: BoundingBox, tags: Seq<TagArea>, taken: Seq<bool>, k: int)
    requires
        0 <= k <= tags.len() <= usize::MAX,
        taken.len() == tags.len(),
    ensures
        claim(b, tags, taken, k).0.len() == tags.len(),
        forall|j: int| 0 <= j < tags.len() && taken[j] ==> #[trigger] claim(b, tags, taken, k).0[j],
        claim(b, tags, taken, k).1 matches Some(c) ==> {
            &&& c < k
            &&& tags[c as int].has_text
            &&& box_meets_tag(b, tags[c as int])
            &&& !taken[c as int]
            &&& claim(b, tags, taken, k).0[c as int]
        },
    decreases k,
{
    if k > 0 {
        lemma_claim(b, tags, taken, k - 1);
        let (t, c) = claim(b, tags, taken, k - 1);
        assert forall|j: int| 0 <= j < tags.len() && taken[j] implies #[trigger] claim(
            b,
            tags,
            taken,
            k,
        ).0[j] by {
            assert(t[j]);
        }
        if !t[k - 1] && box_meets_tag(b, tags[k - 1]) {
            if taken[k - 1] {
                assert(t[k - 1]);
            }
            let t2 = t.update(k - 1, true);
            assert(t2[k - 1]);
            if let Some(ci) = c {
                assert(t2[ci as int] == t[ci as int]);
            }
        }
    }
}

proof fn lemma_pair_regions_len(
    boxes: Seq<BoundingBox>,
    tags: Seq<TagArea>,
    keys: Seq<Seq<char>>,
    n: int,
)
    requires
        tags.len() <= usize::MAX,
        0 <= n <= boxes.len(),
    ensures
        pair_regions(boxes, tags, keys, n).0.len() == n,
        pair_regions(boxes, tags, keys, n).1.len() <= keys.len() + n,
        pair_regions(boxes, tags, keys, n).2.len() == tags.len(),
    decreases n,
{
    if n > 0 {
        lemma_pair_regions_len(boxes, tags, keys, n - 1);
        let (_, _, taken) = pair_regions(boxes, tags, keys, n - 1);
        lemma_claim(boxes[n - 1], tags, taken, tags.len() as int);
    }
}

/// The first `m` boxes leave taken every tag that the first `n` boxes took,
/// for `n <= m`.
proof fn lemma_taken_stays(
    boxes: Seq<BoundingBox>,
    tags: Seq<TagArea>,
    keys: Seq<Seq<char>>,
    n: int,
    m: int,
)
    requires
        tags.len() <= usize::MAX,
        0 <= n <= m <= boxes.len(),
    ensures
        forall|j: int|
            0 <= j < tags.len() && pair_regions(boxes, tags, keys, n).2[j] ==> #[trigger] pair_regions(
                boxes,
                tags,
                keys,
                m,
            ).2[j],
    decreases m - n,
{
    if n < m {
        lemma_taken_stays(boxes, tags, keys, n, m - 1);
        lemma_pair_regions_len(boxes, tags, keys, m - 1);
        let (_, _, taken) = pair_regions(boxes, tags, keys, m - 1);
        lemma_claim(boxes[m - 1], tags, taken, tags.len() as int);
        assert forall|j: int|
            0 <= j < tags.len() && pair_regions(boxes, tags, keys, n).2[j] implies #[trigger] pair_regions(
            boxes,
            tags,
            keys,
            m,
        ).2[j] by {
            assert(taken[j]);
        }
    }
}

/// The tag a box uses, if any, has text, overlaps the box and is taken.
pub open spec fn fair_use(b: BoundingBox, tags: Seq<TagArea>, taken: Seq<bool>, chosen: Option<usize>) -> bool {
    match chosen {
        Some(c) => {
            &&& c < tags.len()
            &&& tags[c as int].has_text
            &&& box_meets_tag(b, tags[c as int])
            &&& taken[c as int]
        },
        None => true,
    }
}

/// A box only uses the text of a tag that has text and that it overlaps;
/// that tag ends up taken; and no two boxes use the text of the same tag.
pub proof fn lemma_tag_text_used_once(
    boxes: Seq<BoundingBox>,
    tags: Seq<TagArea>,
    keys: Seq<Seq<char>>,
    n: int,
)
    requires
        tags.len() <= usize::MAX,
        0 <= n <= boxes.len(),
    ensures
        forall|p: int|
            0 <= p < n ==> fair_use(
                boxes[p],
                tags,
                pair_regions(boxes, tags, keys, n).2,
                (#[trigger] pair_regions(boxes, tags, keys, n).0[p]).1,
            ),
        forall|p: int, q: int|
            0 <= p < q < n && (#[trigger] pair_regions(boxes, tags, keys, n).0[p]).1 is Some
                ==> pair_regions(boxes, tags, keys, n).0[p].1 != (#[trigger] pair_regions(
                boxes,
                tags,
                keys,
                n,
            ).0[q]).1,
    decreases n,
{
    if n > 0 {
        lemma_tag_text_used_once(boxes, tags, keys, n - 1);
        lemma_pair_regions_len(boxes, tags, keys, n - 1);
        let (out, ks, taken) = pair_regions(boxes, tags, keys, n - 1);
        let b = boxes[n - 1];
        lemma_claim(b, tags, taken, tags.len() as int);
        let (taken2, chosen) = claim(b, tags, taken, tags.len() as int);
        let out2 = pair_regions(boxes, tags, keys, n).0;
        assert(out2 == out.push((box_role(ks, b).1 as u32, chosen)));
        assert forall|p: int|
            0 <= p < n implies fair_use(
            boxes[p],
            tags,
            pair_regions(boxes, tags, keys, n).2,
            (#[trigger] pair_regions(boxes, tags, keys, n).0[p]).1,
        ) by {
            if p < n - 1 {
                assert(out2[p] == out[p]);
                if let Some(c) = out[p].1 {
                    assert(taken[c as int]);
                    assert(taken2[c as int]);
                }
            }
        }
        assert forall|p: int, q: int|
            0 <= p < q < n && (#[trigger] pair_regions(boxes, tags, keys, n).0[p]).1 is Some
            implies pair_regions(boxes, tags, keys, n).0[p].1 != (#[trigger] pair_regions(
            boxes,
            tags,
            keys,
            n,
        ).0[q]).1 by {
            assert(out2[p] == out[p]);
            if q < n - 1 {
                assert(out2[q] == out[q]);
                assert(out[p].1 != out[q].1);
            } else {
                assert(out2[q].1 == chosen);
                let c = out[p].1.unwrap();
                assert(taken[c as int]);
            }
        }
    }
}

/// Gives each highlighted box its role and the tag whose text it takes, and
/// says which tags were taken by some box. Boxes are handled in order, and
/// each looks at the tags in order; a box without colour has role 0.
pub fn region_roles(boxes: &[BoundingBox], tags: &[TagArea], registry: &mut StyleRegistry) -> (r: (
    Vec<(u32, Option<usize>)>,
    Vec<bool>,
))
    requires
        old(registry).wf(),
        old(registry).keys().len() + boxes.len() + 3 <= u32::MAX,
        forall|i: int| 0 <= i < boxes.len() ==> #[trigger] box_fits(boxes[i]),
        forall|i: int, j: int|
            0 <= i < boxes.len() && 0 <= j < tags.len() ==> pair_fits(
                #[trigger] boxes[i],
                #[trigger] tags[j],
            ),
    ensures
        final(registry).wf(),
        (r.0@, final(registry).keys(), r.1@) == pair_regions(
            boxes@,
            tags@,
            old(registry).keys(),
            boxes.len() as int,
        ),
{
    let mut out: Vec<(u32, Option<usize>)> = Vec::new();
    let mut taken: Vec<bool> = Vec::new();
    let mut k: usize = 0;
    while k < tags.len()
        invariant
            k <= tags.len(),
            taken@ == Seq::new(k as nat, |i: int| false),
        decreases tags.len() - k,
    {
        taken.push(false);
        k += 1;
    }
    assert(taken@ == Seq::new(tags.len() as nat, |i: int| false));
    let mut i: usize = 0;
    while i < boxes.len()
        invariant
            i <= boxes.len(),
            tags@.len() == tags.len(),
            registry.wf(),
            old(registry).keys().len() + boxes.len() + 3 <= u32::MAX,
            forall|p: int| 0 <= p < boxes.len() ==> #[trigger] box_fits(boxes[p]),
            (out@, registry.keys(), taken@) == pair_regions(
                boxes@,
                tags@,
                old(registry).keys(),
                i as int,
            ),
        decreases boxes.len() - i,
    {
        proof {
            lemma_pair_regions_len(boxes@, tags@, old(registry).keys(), i as int);
        }
        let b = &boxes[i];
        assert(box_fits(boxes[i as int]));
        let role: u32 = match &b.highlight {
            Some(c) => registry.get_or_register(c.as_str()),
            None => 0,
        };
        let bx: i64 = b.min_x as i64;
        let by: i64 = b.min_y as i64;
        let bw: i64 = if b.max_x >= b.min_x { (b.max_x - b.min_x) as i64 } else { 0 } + 1;
        let bh: i64 = if b.max_y >= b.min_y { (b.max_y - b.min_y) as i64 } else { 0 } + 1;
        let ghost before = taken@;
        let mut chosen: Option<usize> = None;
        let mut t: usize = 0;
        while t < tags.len()
            invariant
                t <= tags.len(),
                before.len() == tags.len(),
                bx == b.min_x,
                by == b.min_y,
                bw == spec_width(*b),
                bh == spec_height(*b),
                b.min_x + spec_width(*b) <= i32::MAX,
                b.min_y + spec_height(*b) <= i32::MAX,
                (taken@, chosen) == claim(*b, tags@, before, t as int),
            decreases tags.len() - t,
        {
            proof {
                lemma_claim(*b, tags@, before, t as int);
            }
            let tag = tags[t];
            if !taken[t] {
                let ax1: i64 = bx + bw;
                let tx1: i64 = tag.x as i64 + tag.w as i64;
                let ox: i64 = (if ax1 <= tx1 { ax1 } else { tx1 }) - (if bx >= tag.x as i64 { bx } else { tag.x as i64 });
                let ay1: i64 = by + bh;
                let ty1: i64 = tag.y as i64 + tag.h as i64;
                let oy: i64 = (if ay1 <= ty1 { ay1 } else { ty1 }) - (if by >= tag.y as i64 { by } else { tag.y as i64 });
                if ox > 0 && oy > 0 {
                    taken.set(t, true);
                    if tag.has_text {
                        chosen = Some(t);
                    }
                }
            }
            t += 1;
        }
        out.push((role, chosen));
        i += 1;
    }
    proof {
        lemma_pair_regions_len(boxes@, tags@, old(registry).keys(), boxes.len() as int);
    }
    (out, taken)
}

} // verus!
