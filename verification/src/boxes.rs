//! Pixel bounding boxes of highlighted areas and the iterative merge of
//! neighbouring boxes of one colour into paragraph-sized boxes.

use vstd::prelude::*;
use crate::text::str_eq;

verus! {

/// Largest coordinate (exclusive) a box may carry: the merge rule works in
/// 32-bit signed integers and multiplies a height by three, which stays
/// below `i32::MAX` exactly for coordinates under this bound.
pub const COORD_LIMIT: u32 = 0x2AAA_AAAA;

/// A pixel bounding box, both corners inclusive, with the name of its
/// highlight colour when it came from a coloured area.
#[derive(Debug, PartialEq, Eq)]
pub struct BoundingBox {
    pub min_x: u32,
    pub min_y: u32,
    pub max_x: u32,
    pub max_y: u32,
    pub highlight: Option<String>,
}

/// The colour names of two boxes, compared by their text.
pub open spec fn same_highlight(a: Option<String>, b: Option<String>) -> bool {
    match (a, b) {
        (None, None) => true,
        (Some(x), Some(y)) => x@ == y@,
        _ => false,
    }
}

pub open spec fn min_u32(a: u32, b: u32) -> u32 {
    if a <= b { a } else { b }
}

pub open spec fn max_u32(a: u32, b: u32) -> u32 {
    if a >= b { a } else { b }
}

/// `a.saturating_sub(b)` on unsigned values.
pub open spec fn sat_sub(a: u32, b: u32) -> int {
    if a >= b { a - b } else { 0 }
}

/// All four coordinates lie below [`COORD_LIMIT`].
pub open spec fn in_range(b: BoundingBox) -> bool {
    b.min_x < COORD_LIMIT && b.min_y < COORD_LIMIT && b.max_x < COORD_LIMIT && b.max_y
        < COORD_LIMIT
}

/// Minimum corner not past the maximum corner.
pub open spec fn well_formed(b: BoundingBox) -> bool {
    b.min_x <= b.max_x && b.min_y <= b.max_y
}

pub open spec fn all_in_range(s: Seq<BoundingBox>) -> bool {
    forall|k: int| 0 <= k < s.len() ==> #[trigger] in_range(s[k])
}

pub open spec fn spec_width(b: BoundingBox) -> int {
    sat_sub(b.max_x, b.min_x) + 1
}

pub open spec fn spec_height(b: BoundingBox) -> int {
    sat_sub(b.max_y, b.min_y) + 1
}

/// The smallest box holding both; the colour of `a` wins, else that of `b`.
pub open spec fn box_union(a: BoundingBox, b: BoundingBox) -> BoundingBox {
    BoundingBox {
        min_x: min_u32(a.min_x, b.min_x),
        min_y: min_u32(a.min_y, b.min_y),
        max_x: max_u32(a.max_x, b.max_x),
        max_y: max_u32(a.max_y, b.max_y),
        highlight: if a.highlight is Some { a.highlight } else { b.highlight },
    }
}

pub open spec fn spec_intersects(a: BoundingBox, b: BoundingBox) -> bool {
    a.min_x <= b.max_x && a.max_x >= b.min_x && a.min_y <= b.max_y && a.max_y >= b.min_y
}

/// `outer` reaches at least as far as `inner` on every side.
pub open spec fn covers(outer: BoundingBox, inner: BoundingBox) -> bool {
    outer.min_x <= inner.min_x && outer.min_y <= inner.min_y && inner.max_x <= outer.max_x
        && inner.max_y <= outer.max_y
}

/// Two boxes on one text line: their vertical overlap is at least two fifths
/// of the lower box's height and the horizontal gap is at most 20 pixels.
pub open spec fn same_line_neighbours(a: BoundingBox, b: BoundingBox) -> bool {
    let overlap_y = min_u32(a.max_y, b.max_y) - max_u32(a.min_y, b.min_y) + 1;
    let min_h = if spec_height(a) <= spec_height(b) { spec_height(a) } else { spec_height(b) };
    let gap_x = if a.max_x < b.min_x { b.min_x - a.max_x } else { sat_sub(a.min_x, b.max_x) };
    overlap_y > 0 && overlap_y >= min_h * 2 / 5 && gap_x <= 20
}

/// Two boxes on consecutive lines of a paragraph: their horizontal overlap is
/// at least two fifths of the narrower width and the vertical gap is at most
/// one and a half times the lower height.
pub open spec fn stacked_neighbours(a: BoundingBox, b: BoundingBox) -> bool {
    let overlap_x = min_u32(a.max_x, b.max_x) - max_u32(a.min_x, b.min_x) + 1;
    let min_w = if spec_width(a) <= spec_width(b) { spec_width(a) } else { spec_width(b) };
    let min_h = if spec_height(a) <= spec_height(b) { spec_height(a) } else { spec_height(b) };
    let gap_y = if a.max_y < b.min_y { b.min_y - a.max_y } else { sat_sub(a.min_y, b.max_y) };
    overlap_x > 0 && overlap_x >= min_w * 2 / 5 && gap_y <= min_h * 3 / 2
}

/// Whether two highlight boxes belong to one area: same colour, and they
/// intersect, sit side by side on a line, or stack as lines of a paragraph.
pub open spec fn spec_should_merge(a: BoundingBox, b: BoundingBox) -> bool {
    same_highlight(a.highlight, b.highlight) && (spec_intersects(a, b) || same_line_neighbours(
        a,
        b,
    ) || stacked_neighbours(a, b))
}

impl BoundingBox {
    /// A box without a highlight colour.
    pub fn new(min_x: u32, min_y: u32, max_x: u32, max_y: u32) -> (r: BoundingBox)
        ensures
            r == (BoundingBox { min_x, min_y, max_x, max_y, highlight: None }),
    {
        BoundingBox { min_x, min_y, max_x, max_y, highlight: None }
    }

    /// A box carrying the given highlight colour name.
    pub fn with_highlight(min_x: u32, min_y: u32, max_x: u32, max_y: u32, highlight: &str) -> (r:
        BoundingBox)
        ensures
            r.min_x == min_x && r.min_y == min_y && r.max_x == max_x && r.max_y == max_y,
            r.highlight matches Some(h) && h@ == highlight@,
    {
        BoundingBox { min_x, min_y, max_x, max_y, highlight: Some(highlight.to_owned()) }
    }

    /// An exact copy.
    pub fn duplicate(&self) -> (r: BoundingBox)
        ensures
            r == *self,
    {
        let highlight = match &self.highlight {
            Some(h) => Some(h.clone()),
            None => None,
        };
        BoundingBox {
            min_x: self.min_x,
            min_y: self.min_y,
            max_x: self.max_x,
            max_y: self.max_y,
            highlight,
        }
    }

    /// Number of pixel columns, corners included (0 columns count as 1).
    pub fn width(&self) -> (r: u32)
        requires
            spec_width(*self) <= u32::MAX,
        ensures
            r == spec_width(*self),
    {
        let d = if self.max_x >= self.min_x { self.max_x - self.min_x } else { 0 };
        d + 1
    }

    /// Number of pixel rows, corners included (0 rows count as 1).
    pub fn height(&self) -> (r: u32)
        requires
            spec_height(*self) <= u32::MAX,
        ensures
            r == spec_height(*self),
    {
        let d = if self.max_y >= self.min_y { self.max_y - self.min_y } else { 0 };
        d + 1
    }

    /// The smallest box holding both boxes; keeps this box's colour if it has one.
    pub fn union(&self, other: &BoundingBox) -> (r: BoundingBox)
        ensures
            r == box_union(*self, *other),
    {
        let highlight = match &self.highlight {
            Some(h) => Some(h.clone()),
            None => match &other.highlight {
                Some(h) => Some(h.clone()),
                None => None,
            },
        };
        BoundingBox {
            min_x: if self.min_x <= other.min_x { self.min_x } else { other.min_x },
            min_y: if self.min_y <= other.min_y { self.min_y } else { other.min_y },
            max_x: if self.max_x >= other.max_x { self.max_x } else { other.max_x },
            max_y: if self.max_y >= other.max_y { self.max_y } else { other.max_y },
            highlight,
        }
    }

    /// Whether the two boxes share at least one pixel.
    pub fn intersects(&self, other: &BoundingBox) -> (r: bool)
        ensures
            r == spec_intersects(*self, *other),
    {
        self.min_x <= other.max_x && self.max_x >= other.min_x && self.min_y <= other.max_y
            && self.max_y >= other.min_y
    }
}

/// Colour names of two boxes compared by text.
fn same_highlight_exec(a: &Option<String>, b: &Option<String>) -> (r: bool)
    ensures
        r == same_highlight(*a, *b),
{
    match (a, b) {
        (None, None) => true,
        (Some(x), Some(y)) => str_eq(x.as_str(), y.as_str()),
        _ => false,
    }
}

/// Whether two highlight boxes are parts of one highlighted area.
pub fn should_merge_boxes(a: &BoundingBox, b: &BoundingBox) -> (r: bool)
    requires
        in_range(*a),
        in_range(*b),
    ensures
        r == spec_should_merge(*a, *b),
{
    if !same_highlight_exec(&a.highlight, &b.highlight) {
        return false;
    }
    if a.intersects(b) {
        return true;
    }
    let a_h = a.height() as i32;
    let b_h = b.height() as i32;
    let min_h: i32 = if a_h <= b_h { a_h } else { b_h };

    let lo_max_y: u32 = if a.max_y <= b.max_y { a.max_y } else { b.max_y };
    let hi_min_y: u32 = if a.min_y >= b.min_y { a.min_y } else { b.min_y };
    let overlap_y: i32 = (lo_max_y as i32) - (hi_min_y as i32) + 1;
    if overlap_y > 0 && overlap_y >= (min_h * 2 / 5) {
        let gap_x: u32 = if a.max_x < b.min_x {
            b.min_x - a.max_x
        } else if a.min_x >= b.max_x {
            a.min_x - b.max_x
        } else {
            0
        };
        if gap_x <= 20 {
            return true;
        }
    }
    let a_w = a.width() as i32;
    let b_w = b.width() as i32;
    let min_w: i32 = if a_w <= b_w { a_w } else { b_w };
    let lo_max_x: u32 = if a.max_x <= b.max_x { a.max_x } else { b.max_x };
    let hi_min_x: u32 = if a.min_x >= b.min_x { a.min_x } else { b.min_x };
    let overlap_x: i32 = (lo_max_x as i32) - (hi_min_x as i32) + 1;
    if overlap_x > 0 && overlap_x >= (min_w * 2 / 5) {
        let gap_y: u32 = if a.max_y < b.min_y {
            b.min_y - a.max_y
        } else if a.min_y >= b.max_y {
            a.min_y - b.max_y
        } else {
            0
        };
        if (gap_y as i32) <= (min_h * 3 / 2) {
            return true;
        }
    }
    false
}


// ---------------------------------------------------------------------------
// Iterative merging
// ---------------------------------------------------------------------------
/// One sweep of `current` over the boxes from `j` on: every box not yet taken
/// that `current` should merge with is absorbed into it and marked as taken.
/// Returns the grown box, the new marks, and whether anything was absorbed.
pub open spec fn absorb_from(
    current: BoundingBox,
    boxes: Seq<BoundingBox>,
    taken: Seq<bool>,
    j: int,
) -> (BoundingBox, Seq<bool>, bool)
    decreases boxes.len() - j,
{
    if j < 0 || j >= boxes.len() {
        (current, taken, false)
    } else if taken[j] {
        absorb_from(current, boxes, taken, j + 1)
    } else if spec_should_merge(current, boxes[j]) {
        let r = absorb_from(box_union(current, boxes[j]), boxes, taken.update(j, true), j + 1);
        (r.0, r.1, true)
    } else {
        absorb_from(current, boxes, taken, j + 1)
    }
}

/// One merge pass from position `i` on: each box not yet taken starts a new
/// output box that absorbs the later boxes it should merge with.
/// Returns the output boxes and whether any merge happened.
pub open spec fn pass_from(boxes: Seq<BoundingBox>, taken: Seq<bool>, i: int) -> (
    Seq<BoundingBox>,
    bool,
)
    decreases boxes.len() - i,
{
    if i < 0 || i >= boxes.len() {
        (Seq::empty(), false)
    } else if taken[i] {
        pass_from(boxes, taken, i + 1)
    } else {
        let r = absorb_from(boxes[i], boxes, taken, i + 1);
        let rest = pass_from(boxes, r.1, i + 1);
        (seq![r.0] + rest.0, r.2 || rest.1)
    }
}

/// One full merge pass over `boxes`.
pub open spec fn merge_pass(boxes: Seq<BoundingBox>) -> (Seq<BoundingBox>, bool) {
    pass_from(boxes, Seq::new(boxes.len(), |k: int| false), 0)
}

/// Number of positions in `taken[i..]` that are not taken.
pub open spec fn free_from(taken: Seq<bool>, i: int) -> nat
    decreases taken.len() - i,
{
    if i < 0 || i >= taken.len() {
        0
    } else {
        (if taken[i] { 0nat } else { 1nat }) + free_from(taken, i + 1)
    }
}

/// Merge passes are repeated until one pass merges nothing.
pub open spec fn merge_fixpoint(boxes: Seq<BoundingBox>) -> Seq<BoundingBox>
    decreases boxes.len(),
{
    if boxes.len() <= 1 {
        boxes
    } else {
        let next = merge_pass(boxes);
        if next.1 && next.0.len() < boxes.len() {
            merge_fixpoint(next.0)
        } else {
            boxes
        }
    }
}

proof fn lemma_free_from_agree(a: Seq<bool>, b: Seq<bool>, i: int)
    requires
        0 <= i,
        a.len() == b.len(),
        forall|k: int| i <= k < a.len() ==> a[k] == b[k],
    ensures
        free_from(a, i) == free_from(b, i),
    decreases a.len() - i,
{
    if i < a.len() {
        lemma_free_from_agree(a, b, i + 1);
    }
}

proof fn lemma_free_from_mono(a: Seq<bool>, b: Seq<bool>, i: int)
    requires
        0 <= i,
        a.len() == b.len(),
        forall|k: int| i <= k < a.len() && a[k] ==> b[k],
    ensures
        free_from(b, i) <= free_from(a, i),
    decreases a.len() - i,
{
    if i < a.len() {
        lemma_free_from_mono(a, b, i + 1);
    }
}

proof fn lemma_union_in_range(a: BoundingBox, b: BoundingBox)
    requires
        in_range(a),
        in_range(b),
    ensures
        in_range(box_union(a, b)),
        covers(box_union(a, b), a),
        covers(box_union(a, b), b),
{
}

/// What one absorbing sweep does to the marks and to the growing box.
proof fn lemma_absorb(current: BoundingBox, boxes: Seq<BoundingBox>, taken: Seq<bool>, j: int)
    requires
        0 <= j,
        taken.len() == boxes.len(),
        in_range(current),
        all_in_range(boxes),
    ensures
        ({
            let r = absorb_from(current, boxes, taken, j);
            &&& r.1.len() == taken.len()
            &&& in_range(r.0)
            &&& covers(r.0, current)
            &&& forall|k: int| 0 <= k < j ==> r.1[k] == taken[k]
            &&& forall|k: int| 0 <= k < taken.len() && taken[k] ==> r.1[k]
            &&& forall|k: int|
                j <= k < taken.len() && !taken[k] && r.1[k] ==> covers(r.0, boxes[k])
            &&& free_from(r.1, j) <= free_from(taken, j)
            &&& r.2 ==> free_from(r.1, j) < free_from(taken, j)
            &&& !r.2 ==> r.0 == current && r.1 == taken && forall|k: int|
                j <= k < taken.len() && !taken[k] ==> !spec_should_merge(current, boxes[k])
        }),
    decreases boxes.len() - j,
{
    let r0 = absorb_from(current, boxes, taken, j);
    if j >= boxes.len() {
    } else if taken[j] {
        lemma_absorb(current, boxes, taken, j + 1);
        let r = absorb_from(current, boxes, taken, j + 1);
        assert(r0 == r);
        assert(r.1[j] == taken[j]);
        assert(free_from(r.1, j) == free_from(r.1, j + 1));
        assert(free_from(taken, j) == free_from(taken, j + 1));
        assert forall|k: int| 0 <= k < j implies r.1[k] == taken[k] by {}
    } else if spec_should_merge(current, boxes[j]) {
        let u = box_union(current, boxes[j]);
        let t2 = taken.update(j, true);
        lemma_union_in_range(current, boxes[j]);
        lemma_absorb(u, boxes, t2, j + 1);
        let r = absorb_from(u, boxes, t2, j + 1);
        assert(r0 == (r.0, r.1, true));
        assert(r.1[j] == t2[j]);
        lemma_free_from_agree(t2, taken, j + 1);
        assert(free_from(r.1, j) == free_from(r.1, j + 1));
        assert(free_from(taken, j) == 1 + free_from(taken, j + 1));
        assert forall|k: int| 0 <= k < j implies r.1[k] == taken[k] by {
            assert(t2[k] == taken[k]);
        }
        assert forall|k: int| 0 <= k < taken.len() && taken[k] implies r.1[k] by {
            assert(t2[k]);
        }
        assert forall|k: int|
            j <= k < taken.len() && !taken[k] && r.1[k] implies covers(r.0, boxes[k]) by {
            if k > j {
                assert(!t2[k]);
            }
        }
    } else {
        lemma_absorb(current, boxes, taken, j + 1);
        let r = absorb_from(current, boxes, taken, j + 1);
        assert(r0 == r);
        assert(r.1[j] == taken[j]);
        assert(free_from(r.1, j) == 1 + free_from(r.1, j + 1));
        assert(free_from(taken, j) == 1 + free_from(taken, j + 1));
        assert forall|k: int| 0 <= k < j implies r.1[k] == taken[k] by {}
    }
}

/// What one merge pass does: it never yields more boxes than it was given,
/// strictly fewer when it merged, and its output boxes stay in range.
proof fn lemma_pass(boxes: Seq<BoundingBox>, taken: Seq<bool>, i: int)
    requires
        0 <= i,
        taken.len() == boxes.len(),
        all_in_range(boxes),
    ensures
        ({
            let r = pass_from(boxes, taken, i);
            &&& r.0.len() <= free_from(taken, i)
            &&& r.1 ==> r.0.len() < free_from(taken, i)
            &&& all_in_range(r.0)
        }),
    decreases boxes.len() - i,
{
    if i >= boxes.len() {
    } else if taken[i] {
        lemma_pass(boxes, taken, i + 1);
    } else {
        lemma_absorb(boxes[i], boxes, taken, i + 1);
        let a = absorb_from(boxes[i], boxes, taken, i + 1);
        lemma_pass(boxes, a.1, i + 1);
        let rest = pass_from(boxes, a.1, i + 1);
        assert(free_from(taken, i) == 1 + free_from(taken, i + 1));
        let out = seq![a.0] + rest.0;
        assert forall|k: int| 0 <= k < out.len() implies #[trigger] in_range(out[k]) by {
            if k > 0 {
                assert(out[k] == rest.0[k - 1]);
            }
        }
    }
}

/// A pass that merges nothing, started on untaken boxes, gives the boxes back
/// unchanged, and then no earlier box should merge with a later one.
proof fn lemma_pass_unchanged(boxes: Seq<BoundingBox>, taken: Seq<bool>, i: int)
    requires
        0 <= i <= boxes.len(),
        taken.len() == boxes.len(),
        all_in_range(boxes),
        forall|k: int| i <= k < taken.len() ==> !taken[k],
        !pass_from(boxes, taken, i).1,
    ensures
        pass_from(boxes, taken, i).0 == boxes.subrange(i, boxes.len() as int),
        forall|p: int, q: int|
            i <= p < q < boxes.len() ==> !spec_should_merge(#[trigger] boxes[p], #[trigger] boxes[q]),
    decreases boxes.len() - i,
{
    if i < boxes.len() {
        lemma_absorb(boxes[i], boxes, taken, i + 1);
        lemma_pass_unchanged(boxes, taken, i + 1);
        assert(pass_from(boxes, taken, i).0 =~= boxes.subrange(i, boxes.len() as int));
        assert forall|p: int, q: int|
            i <= p < q < boxes.len() implies !spec_should_merge(
            #[trigger] boxes[p],
            #[trigger] boxes[q],
        ) by {
            if p == i {
                assert(!taken[q]);
            }
        }
    } else {
        assert(pass_from(boxes, taken, i).0 =~= boxes.subrange(i, boxes.len() as int));
    }
}

proof fn lemma_free_all(n: nat, i: int)
    requires
        0 <= i <= n,
    ensures
        free_from(Seq::new(n, |k: int| false), i) == n - i,
    decreases n - i,
{
    if i < n {
        lemma_free_all(n, i + 1);
    }
}

/// A merge pass over boxes in range: its output is in range, it is no longer
/// than the input, strictly shorter when it merged, and it equals the input
/// when it did not merge.
pub proof fn lemma_merge_pass(boxes: Seq<BoundingBox>)
    requires
        all_in_range(boxes),
    ensures
        all_in_range(merge_pass(boxes).0),
        merge_pass(boxes).0.len() <= boxes.len(),
        merge_pass(boxes).1 ==> merge_pass(boxes).0.len() < boxes.len(),
        !merge_pass(boxes).1 ==> merge_pass(boxes).0 == boxes,
        !merge_pass(boxes).1 ==> forall|p: int, q: int|
            0 <= p < q < boxes.len() ==> !spec_should_merge(#[trigger] boxes[p], #[trigger] boxes[q]),
{
    let t = Seq::new(boxes.len(), |k: int| false);
    lemma_free_all(boxes.len(), 0);
    lemma_pass(boxes, t, 0);
    if !merge_pass(boxes).1 {
        lemma_pass_unchanged(boxes, t, 0);
        assert(boxes.subrange(0, boxes.len() as int) =~= boxes);
    }
}

/// Merging is idempotent: merging the merged boxes again changes nothing.
pub proof fn lemma_merge_idempotent(boxes: Seq<BoundingBox>)
    requires
        all_in_range(boxes),
    ensures
        merge_fixpoint(merge_fixpoint(boxes)) == merge_fixpoint(boxes),
    decreases boxes.len(),
{
    if boxes.len() > 1 {
        lemma_merge_pass(boxes);
        let next = merge_pass(boxes);
        if next.1 {
            lemma_merge_idempotent(next.0);
        }
    }
}

/// One merge pass, computed.
fn merge_one_pass(boxes: &Vec<BoundingBox>) -> (r: (Vec<BoundingBox>, bool))
    requires
        all_in_range(boxes@),
    ensures
        (r.0@, r.1) == merge_pass(boxes@),
{
    let n = boxes.len();
    let mut taken: Vec<bool> = Vec::new();
    let mut k: usize = 0;
    while k < n
        invariant
            k <= n,
            taken@ == Seq::new(k as nat, |m: int| false),
        decreases n - k,
    {
        taken.push(false);
        k += 1;
        assert(taken@ =~= Seq::new(k as nat, |m: int| false));
    }
    let ghost all_free = taken@;
    let mut next: Vec<BoundingBox> = Vec::new();
    let mut changed = false;
    let mut i: usize = 0;
    while i < n
        invariant
            n == boxes.len(),
            i <= n,
            taken.len() == n,
            all_in_range(boxes@),
            all_free == Seq::new(n as nat, |m: int| false),
            next@ + pass_from(boxes@, taken@, i as int).0 == pass_from(boxes@, all_free, 0).0,
            (changed || pass_from(boxes@, taken@, i as int).1) == pass_from(boxes@, all_free, 0).1,
        decreases n - i,
    {
        if taken[i] {
            i += 1;
            continue;
        }
        let ghost t0 = taken@;
        let ghost goal = absorb_from(boxes@[i as int], boxes@, t0, i + 1);
        let mut current = boxes[i].duplicate();
        let mut absorbed = false;
        let mut j: usize = i + 1;
        while j < n
            invariant
                n == boxes.len(),
                i < j <= n,
                taken.len() == n,
                all_in_range(boxes@),
                in_range(current),
                goal == absorb_from(boxes@[i as int], boxes@, t0, i + 1),
                goal.0 == absorb_from(current, boxes@, taken@, j as int).0,
                goal.1 == absorb_from(current, boxes@, taken@, j as int).1,
                goal.2 == (absorbed || absorb_from(current, boxes@, taken@, j as int).2),
            decreases n - j,
        {
            assert(in_range(boxes@[j as int]));
            if !taken[j] && should_merge_boxes(&current, &boxes[j]) {
                proof {
                    lemma_union_in_range(current, boxes@[j as int]);
                }
                current = current.union(&boxes[j]);
                taken.set(j, true);
                absorbed = true;
            }
            j += 1;
        }
        next.push(current);
        changed = changed || absorbed;
        proof {
            let rest = pass_from(boxes@, taken@, i + 1);
            assert(pass_from(boxes@, t0, i as int) == (seq![goal.0] + rest.0, goal.2 || rest.1));
            assert(next@ + rest.0 =~= (next@.drop_last() + (seq![goal.0] + rest.0)));
        }
        i += 1;
    }
    proof {
        assert(next@ + Seq::<BoundingBox>::empty() =~= next@);
    }
    (next, changed)
}

/// Merges neighbouring or overlapping boxes of one colour until no two boxes
/// of the result should merge any more.
#[verifier::loop_isolation(false)]
pub fn merge_close_boxes(boxes: Vec<BoundingBox>) -> (r: Vec<BoundingBox>)
    requires
        all_in_range(boxes@),
    ensures
        r@ == merge_fixpoint(boxes@),
{
    let mut boxes = boxes;
    let ghost initial = boxes@;
    loop
        invariant
            all_in_range(boxes@),
            merge_fixpoint(boxes@) == merge_fixpoint(initial),
        decreases boxes.len(),
    {
        if boxes.len() <= 1 {
            assert(merge_fixpoint(boxes@) == boxes@);
            return boxes;
        }
        let (next, changed) = merge_one_pass(&boxes);
        proof {
            lemma_merge_pass(boxes@);
        }
        if !changed {
            assert(merge_fixpoint(boxes@) == boxes@);
            return boxes;
        }
        assert(merge_fixpoint(boxes@) == merge_fixpoint(next@));
        boxes = next;
    }
}

// ---------------------------------------------------------------------------
// Laws
// ---------------------------------------------------------------------------
/// The union of two boxes covers both of them, and the order of the two
/// boxes does not change its corners.
pub proof fn lemma_union_covers_both(a: BoundingBox, b: BoundingBox)
    ensures
        covers(box_union(a, b), a),
        covers(box_union(a, b), b),
        box_union(a, b).min_x == box_union(b, a).min_x,
        box_union(a, b).min_y == box_union(b, a).min_y,
        box_union(a, b).max_x == box_union(b, a).max_x,
        box_union(a, b).max_y == box_union(b, a).max_y,
{
}

/// Intersection of boxes is symmetric.
pub proof fn lemma_intersects_symmetric(a: BoundingBox, b: BoundingBox)
    ensures
        spec_intersects(a, b) == spec_intersects(b, a),
{
}

/// Some box of `out` covers `b`.
pub open spec fn covered_by(out: Seq<BoundingBox>, b: BoundingBox) -> bool {
    exists|m: int| 0 <= m < out.len() && covers(#[trigger] out[m], b)
}

/// A merge pass keeps every box it was given: each untaken input box is
/// covered by some output box.
proof fn lemma_pass_covers(boxes: Seq<BoundingBox>, taken: Seq<bool>, i: int)
    requires
        0 <= i,
        taken.len() == boxes.len(),
        all_in_range(boxes),
    ensures
        forall|k: int|
            i <= k < boxes.len() && !taken[k] ==> covered_by(
                pass_from(boxes, taken, i).0,
                #[trigger] boxes[k],
            ),
    decreases boxes.len() - i,
{
    if i >= boxes.len() {
    } else if taken[i] {
        lemma_pass_covers(boxes, taken, i + 1);
        assert(pass_from(boxes, taken, i) == pass_from(boxes, taken, i + 1));
    } else {
        lemma_absorb(boxes[i], boxes, taken, i + 1);
        let a = absorb_from(boxes[i], boxes, taken, i + 1);
        lemma_pass_covers(boxes, a.1, i + 1);
        let rest = pass_from(boxes, a.1, i + 1);
        let out = pass_from(boxes, taken, i).0;
        assert(out == seq![a.0] + rest.0);
        assert forall|k: int| i <= k < boxes.len() && !taken[k] implies covered_by(
            out,
            #[trigger] boxes[k],
        ) by {
            if k == i {
                assert(covers(out[0], boxes[k]));
            } else if a.1[k] {
                assert(covers(out[0], boxes[k]));
            } else {
                let m = choose|m: int| 0 <= m < rest.0.len() && covers(#[trigger] rest.0[m], boxes[k]);
                assert(out[m + 1] == rest.0[m]);
                assert(covers(out[m + 1], boxes[k]));
            }
        }
    }
}

/// A merge pass over untaken boxes yields at least one box when given any.
proof fn lemma_pass_nonempty(boxes: Seq<BoundingBox>)
    requires
        boxes.len() > 0,
    ensures
        merge_pass(boxes).0.len() > 0,
{
    let t = Seq::new(boxes.len(), |k: int| false);
    assert(!t[0]);
}

/// What merging promises: the result is no longer than the input, is empty
/// only for empty input, stays in range, covers every input box with one of
/// its boxes, and no earlier result box should merge with a later one.
pub proof fn lemma_merge_close_boxes(boxes: Seq<BoundingBox>)
    requires
        all_in_range(boxes),
    ensures
        merge_fixpoint(boxes).len() <= boxes.len(),
        boxes.len() > 0 ==> merge_fixpoint(boxes).len() > 0,
        all_in_range(merge_fixpoint(boxes)),
        forall|k: int|
            0 <= k < boxes.len() ==> covered_by(merge_fixpoint(boxes), #[trigger] boxes[k]),
        forall|p: int, q: int|
            0 <= p < q < merge_fixpoint(boxes).len() ==> !spec_should_merge(
                #[trigger] merge_fixpoint(boxes)[p],
                #[trigger] merge_fixpoint(boxes)[q],
            ),
    decreases boxes.len(),
{
    let r = merge_fixpoint(boxes);
    if boxes.len() <= 1 {
        assert forall|k: int| 0 <= k < boxes.len() implies covered_by(
            r,
            #[trigger] boxes[k],
        ) by {
            assert(covers(r[k], boxes[k]));
        }
    } else {
        lemma_merge_pass(boxes);
        let next = merge_pass(boxes);
        if next.1 && next.0.len() < boxes.len() {
            lemma_pass_nonempty(boxes);
            lemma_merge_close_boxes(next.0);
            let t = Seq::new(boxes.len(), |k: int| false);
            lemma_pass_covers(boxes, t, 0);
            assert forall|k: int| 0 <= k < boxes.len() implies covered_by(
                r,
                #[trigger] boxes[k],
            ) by {
                assert(!t[k]);
                let m1 = choose|m: int| 0 <= m < next.0.len() && covers(#[trigger] next.0[m], boxes[k]);
                let m2 = choose|m: int| 0 <= m < r.len() && covers(#[trigger] r[m], next.0[m1]);
                assert(covers(r[m2], boxes[k]));
            }
        } else {
            assert(!next.1);
            assert forall|k: int| 0 <= k < boxes.len() implies covered_by(
                r,
                #[trigger] boxes[k],
            ) by {
                assert(covers(r[k], boxes[k]));
            }
        }
    }
}

// ---------------------------------------------------------------------------
// Merged boxes are hulls of input boxes of one colour
// ---------------------------------------------------------------------------
/// `b` lies inside `o` and has the same colour.
pub open spec fn inside_of_colour(o: BoundingBox, b: BoundingBox) -> bool {
    covers(o, b) && same_highlight(o.highlight, b.highlight)
}

/// Each of the four sides of `o` is a side of some box of `boxes` of the
/// colour of `o` lying inside `o`.
pub open spec fn spanned_by(o: BoundingBox, boxes: Seq<BoundingBox>) -> bool {
    &&& exists|k: int|
        0 <= k < boxes.len() && inside_of_colour(o, #[trigger] boxes[k]) && boxes[k].min_x == o.min_x
    &&& exists|k: int|
        0 <= k < boxes.len() && inside_of_colour(o, #[trigger] boxes[k]) && boxes[k].min_y == o.min_y
    &&& exists|k: int|
        0 <= k < boxes.len() && inside_of_colour(o, #[trigger] boxes[k]) && boxes[k].max_x == o.max_x
    &&& exists|k: int|
        0 <= k < boxes.len() && inside_of_colour(o, #[trigger] boxes[k]) && boxes[k].max_y == o.max_y
}

/// A box absorbed from `j` on: not taken before the sweep, taken after it.
pub open spec fn absorbed(taken: Seq<bool>, after: Seq<bool>, k: int, j: int) -> bool {
    j <= k < taken.len() && !taken[k] && after[k]
}

/// An absorbing sweep keeps the colour of the growing box, absorbs only
/// boxes of that colour, and each side of the grown box is a side of the
/// box it started from or of an absorbed box.
proof fn lemma_absorb_hull(current: BoundingBox, boxes: Seq<BoundingBox>, taken: Seq<bool>, j: int)
    requires
        0 <= j,
        taken.len() == boxes.len(),
        in_range(current),
        all_in_range(boxes),
    ensures
        ({
            let r = absorb_from(current, boxes, taken, j);
            &&& r.0.highlight == current.highlight
            &&& forall|k: int|
                absorbed(taken, r.1, k, j) ==> same_highlight(
                    current.highlight,
                    (#[trigger] boxes[k]).highlight,
                )
            &&& (r.0.min_x == current.min_x || exists|k: int|
                absorbed(taken, r.1, k, j) && (#[trigger] boxes[k]).min_x == r.0.min_x)
            &&& (r.0.min_y == current.min_y || exists|k: int|
                absorbed(taken, r.1, k, j) && (#[trigger] boxes[k]).min_y == r.0.min_y)
            &&& (r.0.max_x == current.max_x || exists|k: int|
                absorbed(taken, r.1, k, j) && (#[trigger] boxes[k]).max_x == r.0.max_x)
            &&& (r.0.max_y == current.max_y || exists|k: int|
                absorbed(taken, r.1, k, j) && (#[trigger] boxes[k]).max_y == r.0.max_y)
        }),
    decreases boxes.len() - j,
{
    if j >= boxes.len() {
    } else if taken[j] {
        lemma_absorb_hull(current, boxes, taken, j + 1);
        lemma_absorb(current, boxes, taken, j + 1);
        let r = absorb_from(current, boxes, taken, j + 1);
        assert(!absorbed(taken, r.1, j, j));
        assert forall|k: int| absorbed(taken, r.1, k, j) implies absorbed(taken, r.1, k, j + 1) by {}
    } else if spec_should_merge(current, boxes[j]) {
        let u = box_union(current, boxes[j]);
        let t2 = taken.update(j, true);
        lemma_union_in_range(current, boxes[j]);
        lemma_absorb_hull(u, boxes, t2, j + 1);
        lemma_absorb(u, boxes, t2, j + 1);
        let r = absorb_from(u, boxes, t2, j + 1);
        assert(absorb_from(current, boxes, taken, j) == (r.0, r.1, true));
        assert(t2[j]);
        assert(r.1[j]);
        assert(absorbed(taken, r.1, j, j));
        assert forall|k: int| absorbed(taken, r.1, k, j) implies same_highlight(
            current.highlight,
            (#[trigger] boxes[k]).highlight,
        ) by {
            if k > j {
                assert(!t2[k]);
                assert(absorbed(t2, r.1, k, j + 1));
            }
        }
        if r.0.min_x != u.min_x {
            let k = choose|k: int| absorbed(t2, r.1, k, j + 1) && (#[trigger] boxes[k]).min_x == r.0.min_x;
            assert(absorbed(taken, r.1, k, j));
        }
        if r.0.min_y != u.min_y {
            let k = choose|k: int| absorbed(t2, r.1, k, j + 1) && (#[trigger] boxes[k]).min_y == r.0.min_y;
            assert(absorbed(taken, r.1, k, j));
        }
        if r.0.max_x != u.max_x {
            let k = choose|k: int| absorbed(t2, r.1, k, j + 1) && (#[trigger] boxes[k]).max_x == r.0.max_x;
            assert(absorbed(taken, r.1, k, j));
        }
        if r.0.max_y != u.max_y {
            let k = choose|k: int| absorbed(t2, r.1, k, j + 1) && (#[trigger] boxes[k]).max_y == r.0.max_y;
            assert(absorbed(taken, r.1, k, j));
        }
    } else {
        lemma_absorb_hull(current, boxes, taken, j + 1);
        lemma_absorb(current, boxes, taken, j + 1);
        let r = absorb_from(current, boxes, taken, j + 1);
        assert(r.1[j] == taken[j]);
        assert(!absorbed(taken, r.1, j, j));
        assert forall|k: int| absorbed(taken, r.1, k, j) implies absorbed(taken, r.1, k, j + 1) by {}
    }
}

/// Some box of `out` of the colour of `b` holds `b`.
pub open spec fn held_by(out: Seq<BoundingBox>, b: BoundingBox) -> bool {
    exists|m: int| 0 <= m < out.len() && inside_of_colour(#[trigger] out[m], b)
}

proof fn lemma_inside_trans(a: BoundingBox, b: BoundingBox, c: BoundingBox)
    requires
        inside_of_colour(a, b),
        inside_of_colour(b, c),
    ensures
        inside_of_colour(a, c),
{
}

proof fn lemma_inside_refl(a: BoundingBox)
    ensures
        inside_of_colour(a, a),
{
}

proof fn lemma_spanned_trans(o: BoundingBox, mid: Seq<BoundingBox>, boxes: Seq<BoundingBox>)
    requires
        spanned_by(o, mid),
        forall|k: int| 0 <= k < mid.len() ==> #[trigger] spanned_by(mid[k], boxes),
    ensures
        spanned_by(o, boxes),
{
    let k1 = choose|k: int| 0 <= k < mid.len() && inside_of_colour(o, #[trigger] mid[k]) && mid[k].min_x == o.min_x;
    assert(spanned_by(mid[k1], boxes));
    let k2 = choose|k: int| 0 <= k < boxes.len() && inside_of_colour(mid[k1], #[trigger] boxes[k]) && boxes[k].min_x == mid[k1].min_x;
    lemma_inside_trans(o, mid[k1], boxes[k2]);
    let k1 = choose|k: int| 0 <= k < mid.len() && inside_of_colour(o, #[trigger] mid[k]) && mid[k].min_y == o.min_y;
    assert(spanned_by(mid[k1], boxes));
    let k2 = choose|k: int| 0 <= k < boxes.len() && inside_of_colour(mid[k1], #[trigger] boxes[k]) && boxes[k].min_y == mid[k1].min_y;
    lemma_inside_trans(o, mid[k1], boxes[k2]);
    let k1 = choose|k: int| 0 <= k < mid.len() && inside_of_colour(o, #[trigger] mid[k]) && mid[k].max_x == o.max_x;
    assert(spanned_by(mid[k1], boxes));
    let k2 = choose|k: int| 0 <= k < boxes.len() && inside_of_colour(mid[k1], #[trigger] boxes[k]) && boxes[k].max_x == mid[k1].max_x;
    lemma_inside_trans(o, mid[k1], boxes[k2]);
    let k1 = choose|k: int| 0 <= k < mid.len() && inside_of_colour(o, #[trigger] mid[k]) && mid[k].max_y == o.max_y;
    assert(spanned_by(mid[k1], boxes));
    let k2 = choose|k: int| 0 <= k < boxes.len() && inside_of_colour(mid[k1], #[trigger] boxes[k]) && boxes[k].max_y == mid[k1].max_y;
    lemma_inside_trans(o, mid[k1], boxes[k2]);
}

/// The boxes one merge pass makes are spanned by the boxes it was given, and
/// each untaken input box is held by one of them.
proof fn lemma_pass_hull(boxes: Seq<BoundingBox>, taken: Seq<bool>, i: int)
    requires
        0 <= i,
        taken.len() == boxes.len(),
        all_in_range(boxes),
    ensures
        forall|m: int|
            0 <= m < pass_from(boxes, taken, i).0.len() ==> #[trigger] spanned_by(
                pass_from(boxes, taken, i).0[m],
                boxes,
            ),
        forall|k: int|
            i <= k < boxes.len() && !taken[k] ==> #[trigger] held_by(pass_from(boxes, taken, i).0, boxes[k]),
    decreases boxes.len() - i,
{
    if i >= boxes.len() {
    } else if taken[i] {
        lemma_pass_hull(boxes, taken, i + 1);
        assert(pass_from(boxes, taken, i) == pass_from(boxes, taken, i + 1));
    } else {
        let cur = boxes[i];
        lemma_absorb(cur, boxes, taken, i + 1);
        lemma_absorb_hull(cur, boxes, taken, i + 1);
        let a = absorb_from(cur, boxes, taken, i + 1);
        lemma_pass_hull(boxes, a.1, i + 1);
        let rest = pass_from(boxes, a.1, i + 1);
        let out = pass_from(boxes, taken, i).0;
        assert(out == seq![a.0] + rest.0);
        assert(inside_of_colour(a.0, cur));
        assert forall|k: int| absorbed(taken, a.1, k, i + 1) implies inside_of_colour(a.0, #[trigger] boxes[k]) by {
            assert(covers(a.0, boxes[k]));
            assert(same_highlight(cur.highlight, boxes[k].highlight));
        }
        assert(spanned_by(a.0, boxes)) by {
            if a.0.min_x != cur.min_x {
                let k = choose|k: int| absorbed(taken, a.1, k, i + 1) && (#[trigger] boxes[k]).min_x == a.0.min_x;
                assert(inside_of_colour(a.0, boxes[k]));
            }
            if a.0.min_y != cur.min_y {
                let k = choose|k: int| absorbed(taken, a.1, k, i + 1) && (#[trigger] boxes[k]).min_y == a.0.min_y;
                assert(inside_of_colour(a.0, boxes[k]));
            }
            if a.0.max_x != cur.max_x {
                let k = choose|k: int| absorbed(taken, a.1, k, i + 1) && (#[trigger] boxes[k]).max_x == a.0.max_x;
                assert(inside_of_colour(a.0, boxes[k]));
            }
            if a.0.max_y != cur.max_y {
                let k = choose|k: int| absorbed(taken, a.1, k, i + 1) && (#[trigger] boxes[k]).max_y == a.0.max_y;
                assert(inside_of_colour(a.0, boxes[k]));
            }
        }
        assert forall|m: int| 0 <= m < out.len() implies #[trigger] spanned_by(out[m], boxes) by {
            if m > 0 {
                assert(out[m] == rest.0[m - 1]);
            }
        }
        assert forall|k: int| i <= k < boxes.len() && !taken[k] implies #[trigger] held_by(out, boxes[k]) by {
            if k == i {
                assert(inside_of_colour(out[0], boxes[k]));
            } else if a.1[k] {
                assert(absorbed(taken, a.1, k, i + 1));
                assert(inside_of_colour(out[0], boxes[k]));
            } else {
                assert(held_by(rest.0, boxes[k]));
                let m = choose|m: int| 0 <= m < rest.0.len() && inside_of_colour(#[trigger] rest.0[m], boxes[k]);
                assert(out[m + 1] == rest.0[m]);
            }
        }
    }
}

proof fn lemma_held_compose(boxes: Seq<BoundingBox>, mid: Seq<BoundingBox>, out: Seq<BoundingBox>)
    requires
        forall|k: int| 0 <= k < boxes.len() ==> #[trigger] held_by(mid, boxes[k]),
        forall|k: int| 0 <= k < mid.len() ==> #[trigger] held_by(out, mid[k]),
    ensures
        forall|k: int| 0 <= k < boxes.len() ==> #[trigger] held_by(out, boxes[k]),
{
    assert forall|k: int| 0 <= k < boxes.len() implies #[trigger] held_by(out, boxes[k]) by {
        assert(held_by(mid, boxes[k]));
        let m1 = choose|m: int| 0 <= m < mid.len() && inside_of_colour(#[trigger] mid[m], boxes[k]);
        assert(held_by(out, mid[m1]));
        let m2 = choose|m: int| 0 <= m < out.len() && inside_of_colour(#[trigger] out[m], mid[m1]);
        lemma_inside_trans(out[m2], mid[m1], boxes[k]);
    }
}

proof fn lemma_spanned_compose(boxes: Seq<BoundingBox>, mid: Seq<BoundingBox>, out: Seq<BoundingBox>)
    requires
        forall|m: int| 0 <= m < mid.len() ==> #[trigger] spanned_by(mid[m], boxes),
        forall|m: int| 0 <= m < out.len() ==> #[trigger] spanned_by(out[m], mid),
    ensures
        forall|m: int| 0 <= m < out.len() ==> #[trigger] spanned_by(out[m], boxes),
{
    assert forall|m: int| 0 <= m < out.len() implies #[trigger] spanned_by(out[m], boxes) by {
        lemma_spanned_trans(out[m], mid, boxes);
    }
}

proof fn lemma_hull_self(boxes: Seq<BoundingBox>)
    ensures
        forall|k: int| 0 <= k < boxes.len() ==> #[trigger] held_by(boxes, boxes[k]),
        forall|m: int| 0 <= m < boxes.len() ==> #[trigger] spanned_by(boxes[m], boxes),
{
    assert forall|k: int| 0 <= k < boxes.len() implies #[trigger] held_by(boxes, boxes[k]) by {
        lemma_inside_refl(boxes[k]);
    }
    assert forall|m: int| 0 <= m < boxes.len() implies #[trigger] spanned_by(boxes[m], boxes) by {
        lemma_inside_refl(boxes[m]);
    }
}

/// Every box of `boxes` is held by a box of `out`, and every box of `out` is
/// spanned by boxes of `boxes`.
#[verifier::opaque]
spec fn hull_of(out: Seq<BoundingBox>, boxes: Seq<BoundingBox>) -> bool {
    &&& forall|k: int| 0 <= k < boxes.len() ==> #[trigger] held_by(out, boxes[k])
    &&& forall|m: int| 0 <= m < out.len() ==> #[trigger] spanned_by(out[m], boxes)
}

proof fn lemma_hull_of_compose(boxes: Seq<BoundingBox>, mid: Seq<BoundingBox>, out: Seq<BoundingBox>)
    requires
        hull_of(mid, boxes),
        hull_of(out, mid),
    ensures
        hull_of(out, boxes),
{
    reveal(hull_of);
    lemma_held_compose(boxes, mid, out);
    lemma_spanned_compose(boxes, mid, out);
}

proof fn lemma_merge_hull_of(boxes: Seq<BoundingBox>)
    requires
        all_in_range(boxes),
    ensures
        hull_of(merge_fixpoint(boxes), boxes),
    decreases boxes.len(),
{
    let r = merge_fixpoint(boxes);
    let next = merge_pass(boxes);
    if boxes.len() > 1 && next.1 && next.0.len() < boxes.len() {
        assert(r == merge_fixpoint(next.0));
        lemma_merge_pass(boxes);
        lemma_merge_hull_of(next.0);
        assert(hull_of(next.0, boxes)) by {
            reveal(hull_of);
            let t = Seq::new(boxes.len(), |k: int| false);
            lemma_pass_hull(boxes, t, 0);
            assert forall|k: int| 0 <= k < boxes.len() implies #[trigger] held_by(next.0, boxes[k]) by {
                assert(!t[k]);
            }
        }
        lemma_hull_of_compose(boxes, next.0, r);
    } else {
        assert(r == boxes);
        assert(hull_of(boxes, boxes)) by {
            reveal(hull_of);
            lemma_hull_self(boxes);
        }
    }
}

/// Merged boxes are hulls of input boxes of one colour: every input box
/// lies inside a merged box of its colour, and each side of a merged box is
/// a side of an input box of its colour lying inside it.
pub proof fn lemma_merge_hull(boxes: Seq<BoundingBox>)
    requires
        all_in_range(boxes),
    ensures
        forall|k: int| 0 <= k < boxes.len() ==> #[trigger] held_by(merge_fixpoint(boxes), boxes[k]),
        forall|m: int|
            0 <= m < merge_fixpoint(boxes).len() ==> #[trigger] spanned_by(merge_fixpoint(boxes)[m], boxes),
{
    lemma_merge_hull_of(boxes);
    reveal(hull_of);
}

} // verus!
