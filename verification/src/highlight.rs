//! Recognising highlighter colours in rendered page images and wiping the
//! highlighted areas back to white.

use vstd::prelude::*;
use crate::boxes::{BoundingBox, merge_close_boxes, merge_fixpoint, in_range, all_in_range, COORD_LIMIT};
use crate::areas::{
    hl_at, ix, in_grid, in_area, scan_before, highlight_areas, area_min_x, area_max_x, area_min_y, area_max_y,
    area_sum, area_box_ok, kept_areas, boxes_of_areas, nbrs8_done, none_walking, before_visited, seeds_before,
    areas_ok, walk8_ok, dir_done, dir_point, lemma_ix, lemma_start8, lemma_queued8, lemma_after_take8,
    lemma_dir_touch, lemma_dirs_done, lemma_walk8_step, lemma_close8, lemma_finish8, lemma_kept_push,
    lemma_area_sum_push, lemma_area_extent_step,
};

verus! {

pub open spec fn max3(r: u8, g: u8, b: u8) -> int {
    if r >= g && r >= b { r as int } else if g >= b { g as int } else { b as int }
}

pub open spec fn min3(r: u8, g: u8, b: u8) -> int {
    if r <= g && r <= b { r as int } else if g <= b { g as int } else { b as int }
}

/// A highlight background pixel: the spread between its strongest and
/// weakest channel is at least 30, its strongest channel at least 90, and the
/// spread is at least one fifth of the strongest channel (saturation 0.20).
pub open spec fn spec_is_highlight_pixel(r: u8, g: u8, b: u8) -> bool {
    let mx = max3(r, g, b);
    let diff = mx - min3(r, g, b);
    diff >= 30 && mx >= 90 && diff * 5 >= mx
}

/// Whether a pixel belongs to a highlighter background (yellow, green, cyan,
/// magenta, pink, blue, red and similar light saturated colours) rather than
/// to white, black or grey paper and text.
pub fn is_highlight_pixel(r: u8, g: u8, b: u8) -> (res: bool)
    ensures
        res == spec_is_highlight_pixel(r, g, b),
{
    let mx: u8 = if r >= g && r >= b { r } else if g >= b { g } else { b };
    let mn: u8 = if r <= g && r <= b { r } else if g <= b { g } else { b };
    let diff: u8 = mx - mn;
    if diff < 30 {
        return false;
    }
    if mx < 90 {
        return false;
    }
    if (diff as u32) * 5 < (mx as u32) {
        return false;
    }
    true
}

/// The colour name of an average highlight colour.
pub open spec fn spec_classify_highlight_color(r: u8, g: u8, b: u8) -> Seq<char> {
    if r > 160 && g > 160 && b < 140 {
        "yellow"@
    } else if g > 150 && b > 150 && r < 150 {
        "cyan"@
    } else if r > 180 && b > 140 && g < 170 {
        if g < 100 && b > 180 {
            "magenta"@
        } else {
            "pink"@
        }
    } else if g > r && g > b {
        "green"@
    } else if b > r && b > g {
        if g > 140 {
            "cyan"@
        } else {
            "blue"@
        }
    } else if r > g && r > b {
        if b > 100 {
            "pink"@
        } else {
            "red"@
        }
    } else {
        "yellow"@
    }
}

/// Names a highlight colour ("yellow", "cyan", "magenta", "pink", "green",
/// "blue" or "red").
pub fn classify_highlight_color(r: u8, g: u8, b: u8) -> (res: &'static str)
    ensures
        res@ == spec_classify_highlight_color(r, g, b),
{
    if r > 160 && g > 160 && b < 140 {
        "yellow"
    } else if g > 150 && b > 150 && r < 150 {
        "cyan"
    } else if r > 180 && b > 140 && g < 170 {
        if g < 100 && b > 180 {
            "magenta"
        } else {
            "pink"
        }
    } else if g > r && g > b {
        "green"
    } else if b > r && b > g {
        if g > 140 {
            "cyan"
        } else {
            "blue"
        }
    } else if r > g && r > b {
        if b > 100 {
            "pink"
        } else {
            "red"
        }
    } else {
        "yellow"
    }
}

/// Which pixels count as highlighter ink: grey pixels (white, black and
/// every shade between, where the three channels agree) never do, nor any
/// pixel darker than 90 in every channel; a pixel with one channel at full
/// strength and another at most 200 always does (so the pure marker colours
/// such as yellow 255,255,0, green 0,255,0 or pink 255,0,255 are ink).
pub proof fn lemma_highlight_pixels(r: u8, g: u8, b: u8)
    ensures
        r == g && g == b ==> !spec_is_highlight_pixel(r, g, b),
        r < 90 && g < 90 && b < 90 ==> !spec_is_highlight_pixel(r, g, b),
        (r == 255 || g == 255 || b == 255) && (r <= 200 || g <= 200 || b <= 200)
            ==> spec_is_highlight_pixel(r, g, b),
{
}

/// The names of highlighter hues, spelled out.
pub open spec fn hue_yellow() -> Seq<char> {
    seq!['y', 'e', 'l', 'l', 'o', 'w']
}

pub open spec fn hue_green() -> Seq<char> {
    seq!['g', 'r', 'e', 'e', 'n']
}

pub open spec fn hue_cyan() -> Seq<char> {
    seq!['c', 'y', 'a', 'n']
}

pub open spec fn hue_blue() -> Seq<char> {
    seq!['b', 'l', 'u', 'e']
}

pub open spec fn hue_red() -> Seq<char> {
    seq!['r', 'e', 'd']
}

pub open spec fn hue_pink() -> Seq<char> {
    seq!['p', 'i', 'n', 'k']
}

pub open spec fn hue_magenta() -> Seq<char> {
    seq!['m', 'a', 'g', 'e', 'n', 't', 'a']
}

/// Bright red and green with little blue: the yellow marker.
pub open spec fn yellow_band(r: u8, g: u8, b: u8) -> bool {
    r > 160 && g > 160 && b < 140
}

/// Bright green and blue with less red: the cyan marker.
pub open spec fn cyan_band(r: u8, g: u8, b: u8) -> bool {
    g > 150 && b > 150 && r < 150
}

/// Bright red and blue with less green: the pink and magenta markers.
pub open spec fn pink_band(r: u8, g: u8, b: u8) -> bool {
    r > 180 && b > 140 && g < 170
}

/// How highlight colours are named: every colour gets one of seven hue
/// names; the yellow, cyan and pink/magenta marker bands get their names
/// (magenta when green is low and blue high); outside those bands the
/// strongest channel decides: green, blue (cyan when green is also high) or
/// red (pink when blue is also high); a colour with no single strongest
/// channel counts as yellow. So yellow and green markers, for instance,
/// never share a name.
pub proof fn lemma_highlight_colour_names(r: u8, g: u8, b: u8)
    ensures
        ({
            let n = spec_classify_highlight_color(r, g, b);
            n == hue_yellow() || n == hue_green() || n == hue_cyan() || n == hue_blue() || n
                == hue_red() || n == hue_pink() || n == hue_magenta()
        }),
        yellow_band(r, g, b) ==> spec_classify_highlight_color(r, g, b) == hue_yellow(),
        !yellow_band(r, g, b) && cyan_band(r, g, b) ==> spec_classify_highlight_color(r, g, b)
            == hue_cyan(),
        !yellow_band(r, g, b) && !cyan_band(r, g, b) && pink_band(r, g, b) ==> spec_classify_highlight_color(
            r,
            g,
            b,
        ) == (if g < 100 && b > 180 { hue_magenta() } else { hue_pink() }),
        !yellow_band(r, g, b) && !cyan_band(r, g, b) && !pink_band(r, g, b) && g > r && g > b
            ==> spec_classify_highlight_color(r, g, b) == hue_green(),
        !yellow_band(r, g, b) && !cyan_band(r, g, b) && !pink_band(r, g, b) && b > r && b > g
            ==> spec_classify_highlight_color(r, g, b) == (if g > 140 { hue_cyan() } else { hue_blue() }),
        !yellow_band(r, g, b) && !cyan_band(r, g, b) && !pink_band(r, g, b) && r > g && r > b
            ==> spec_classify_highlight_color(r, g, b) == (if b > 100 { hue_pink() } else { hue_red() }),
        !yellow_band(r, g, b) && !cyan_band(r, g, b) && !pink_band(r, g, b) && !(g > r && g > b)
            && !(b > r && b > g) && !(r > g && r > b) ==> spec_classify_highlight_color(r, g, b)
            == hue_yellow(),
        hue_yellow() != hue_green() && hue_yellow() != hue_cyan() && hue_yellow() != hue_blue()
            && hue_yellow() != hue_red() && hue_yellow() != hue_pink() && hue_yellow() != hue_magenta()
            && hue_green() != hue_cyan() && hue_green() != hue_blue() && hue_green() != hue_red()
            && hue_green() != hue_pink() && hue_green() != hue_magenta() && hue_cyan() != hue_blue()
            && hue_cyan() != hue_red() && hue_cyan() != hue_pink() && hue_cyan() != hue_magenta()
            && hue_blue() != hue_red() && hue_blue() != hue_pink() && hue_blue() != hue_magenta()
            && hue_red() != hue_pink() && hue_red() != hue_magenta() && hue_pink() != hue_magenta(),
{
    reveal_strlit("yellow");
    reveal_strlit("green");
    reveal_strlit("cyan");
    reveal_strlit("blue");
    reveal_strlit("red");
    reveal_strlit("pink");
    reveal_strlit("magenta");
    assert("yellow"@ =~= hue_yellow());
    assert("green"@ =~= hue_green());
    assert("cyan"@ =~= hue_cyan());
    assert("blue"@ =~= hue_blue());
    assert("red"@ =~= hue_red());
    assert("pink"@ =~= hue_pink());
    assert("magenta"@ =~= hue_magenta());
    assert(hue_yellow()[0] != hue_green()[0]);
    assert(hue_cyan()[0] != hue_blue()[1]);
    assert(hue_yellow().len() != hue_cyan().len());
    assert(hue_green()[0] != hue_cyan()[0]);
    assert(hue_blue()[0] != hue_red()[0]);
    assert(hue_pink()[0] != hue_magenta()[0]);
    assert(hue_cyan()[0] != hue_pink()[0]);
    assert(hue_blue()[0] != hue_pink()[0]);
    assert(hue_red()[0] != hue_pink()[0]);
    assert(hue_green()[0] != hue_blue()[0]);
    assert(hue_green()[0] != hue_red()[0]);
    assert(hue_green()[0] != hue_pink()[0]);
    assert(hue_green()[0] != hue_magenta()[0]);
    assert(hue_yellow()[0] != hue_blue()[0]);
    assert(hue_yellow()[0] != hue_red()[0]);
    assert(hue_yellow()[0] != hue_pink()[0]);
    assert(hue_yellow()[0] != hue_magenta()[0]);
    assert(hue_cyan()[0] != hue_red()[0]);
    assert(hue_cyan()[0] != hue_magenta()[0]);
    assert(hue_blue()[0] != hue_magenta()[0]);
    assert(hue_red()[0] != hue_magenta()[0]);
}

// ---------------------------------------------------------------------------
// Images
// ---------------------------------------------------------------------------
/// An RGB image stored row by row, three bytes per pixel.
#[derive(Debug, Clone, PartialEq, Eq)]
pub struct PixelImage {
    width: u32,
    height: u32,
    data: Vec<u8>,
}

/// Index of the red byte of pixel `(x, y)` in an image `w` pixels wide.
pub open spec fn pixel_index(w: int, x: int, y: int) -> int {
    3 * (y * w + x)
}

proof fn lemma_pixel_index(w: int, h: int, x: int, y: int)
    requires
        0 <= x < w,
        0 <= y < h,
    ensures
        0 <= pixel_index(w, x, y),
        pixel_index(w, x, y) + 3 <= 3 * (w * h),
{
    assert(y * w + x < w * h) by (nonlinear_arith)
        requires
            0 <= x < w,
            0 <= y < h,
    ;
    assert(0 <= y * w) by (nonlinear_arith)
        requires
            0 <= y,
            0 <= w,
    ;
}

pub(crate) proof fn lemma_pixel_index_distinct(w: int, x1: int, y1: int, x2: int, y2: int)
    requires
        0 <= x1 < w,
        0 <= x2 < w,
        0 <= y1,
        0 <= y2,
        x1 != x2 || y1 != y2,
    ensures
        y1 * w + x1 != y2 * w + x2,
{
    if y1 == y2 {
    } else if y1 < y2 {
        assert(y1 * w + x1 < y2 * w + x2) by (nonlinear_arith)
            requires
                0 <= x1 < w,
                0 <= x2,
                y1 < y2,
        ;
    } else {
        assert(y2 * w + x2 < y1 * w + x1) by (nonlinear_arith)
            requires
                0 <= x2 < w,
                0 <= x1,
                y2 < y1,
        ;
    }
}

impl PixelImage {
    pub closed spec fn spec_width(&self) -> u32 {
        self.width
    }

    pub closed spec fn spec_height(&self) -> u32 {
        self.height
    }

    /// The data holds exactly three bytes for every pixel.
    pub closed spec fn wf(&self) -> bool {
        self.data@.len() == 3 * (self.width as int * self.height as int)
    }

    /// The raw RGB bytes, row by row.
    pub closed spec fn raw(&self) -> Seq<u8> {
        self.data@
    }

    /// The colour of pixel `(x, y)`: its three bytes.
    pub open spec fn pixel(&self, x: int, y: int) -> [u8; 3] {
        let i = pixel_index(self.spec_width() as int, x, y);
        [self.raw()[i], self.raw()[i + 1], self.raw()[i + 2]]
    }

    /// An image of the given size filled with one colour.
    pub fn filled(width: u32, height: u32, rgb: [u8; 3]) -> (r: PixelImage)
        requires
            3 * (width as int * height as int) <= usize::MAX,
        ensures
            r.wf(),
            r.spec_width() == width && r.spec_height() == height,
            forall|x: int, y: int| 0 <= x < width && 0 <= y < height ==> #[trigger] r.pixel(x, y) == rgb,
    {
        let n: usize = 3 * ((width as usize) * (height as usize));
        let mut data: Vec<u8> = Vec::new();
        let mut k: usize = 0;
        while k < n
            invariant
                k <= n,
                data@.len() == k,
                forall|i: int| 0 <= i < k ==> #[trigger] data@[i] == rgb[i % 3],
            decreases n - k,
        {
            data.push(rgb[k % 3]);
            k += 1;
        }
        let r = PixelImage { width, height, data };
        assert forall|x: int, y: int| 0 <= x < width && 0 <= y < height implies #[trigger] r.pixel(x, y) == rgb by {
            lemma_pixel_index(width as int, height as int, x, y);
            let i = pixel_index(width as int, x, y);
            assert(i % 3 == 0);
            assert((i + 1) % 3 == 1);
            assert((i + 2) % 3 == 2);
        }
        r
    }

    /// An image over raw RGB bytes, if their number matches the size.
    pub fn from_raw(width: u32, height: u32, data: Vec<u8>) -> (r: Option<PixelImage>)
        ensures
            r matches Some(img) ==> img.wf() && img.spec_width() == width && img.spec_height() == height
                && img.raw() == data@,
            r is None <==> data@.len() != 3 * (width as int * height as int),
    {
        let w = width as u64;
        let h = height as u64;
        assert(w * h <= 0xFFFF_FFFF * 0xFFFF_FFFF) by (nonlinear_arith)
            requires
                w <= 0xFFFF_FFFF,
                h <= 0xFFFF_FFFF,
        ;
        let cells = w * h;
        let dl = data.len();
        if cells > 0x5555_5555_5555_5555 {
            assert(data@.len() == dl);
            assert(3 * (width as int * height as int) > 0xFFFF_FFFF_FFFF_FFFF);
            return None;
        }
        let n = 3 * cells;
        if data.len() as u64 != n {
            return None;
        }
        Some(PixelImage { width, height, data })
    }

    /// The raw RGB bytes, row by row.
    pub fn into_raw(self) -> (r: Vec<u8>)
        ensures
            r@ == self.raw(),
    {
        self.data
    }

    pub fn width(&self) -> (r: u32)
        ensures
            r == self.spec_width(),
    {
        self.width
    }

    pub fn height(&self) -> (r: u32)
        ensures
            r == self.spec_height(),
    {
        self.height
    }

    /// The colour of pixel `(x, y)`.
    pub fn get_pixel(&self, x: u32, y: u32) -> (r: [u8; 3])
        requires
            self.wf(),
            x < self.spec_width(),
            y < self.spec_height(),
        ensures
            r == self.pixel(x as int, y as int),
    {
        proof {
            lemma_pixel_index(self.width as int, self.height as int, x as int, y as int);
        }
        assert(self.data@.len() == self.data.len());
        let yw: usize = (y as usize) * (self.width as usize);
        let i: usize = 3 * (yw + (x as usize));
        [self.data[i], self.data[i + 1], self.data[i + 2]]
    }

    /// Sets the colour of pixel `(x, y)`.
    pub fn put_pixel(&mut self, x: u32, y: u32, rgb: [u8; 3])
        requires
            old(self).wf(),
            x < old(self).spec_width(),
            y < old(self).spec_height(),
        ensures
            final(self).wf(),
            final(self).spec_width() == old(self).spec_width(),
            final(self).spec_height() == old(self).spec_height(),
            forall|a: int, b: int|
                0 <= a < old(self).spec_width() && 0 <= b < old(self).spec_height() ==> #[trigger] final(self).pixel(a, b) == if a == x && b == y {
                    rgb
                } else {
                    old(self).pixel(a, b)
                },
    {
        proof {
            lemma_pixel_index(self.width as int, self.height as int, x as int, y as int);
        }
        assert(self.data@.len() == self.data.len());
        let yw: usize = (y as usize) * (self.width as usize);
        let i: usize = 3 * (yw + (x as usize));
        self.data.set(i, rgb[0]);
        self.data.set(i + 1, rgb[1]);
        self.data.set(i + 2, rgb[2]);
        proof {
            assert forall|a: int, b: int|
                0 <= a < old(self).spec_width() && 0 <= b < old(self).spec_height() implies #[trigger] self.pixel(a, b) == if a == x && b == y {
                    rgb
                } else {
                    old(self).pixel(a, b)
                } by {
                lemma_pixel_index(self.width as int, self.height as int, a, b);
                if !(a == x && b == y) {
                    lemma_pixel_index_distinct(self.width as int, a, b, x as int, y as int);
                }
            }
        }
    }
}

// ---------------------------------------------------------------------------
// Wiping highlights
// ---------------------------------------------------------------------------
/// `min(v, limit - 1)`, with `limit - 1` saturating at 0.
pub open spec fn clamp_last(v: u32, limit: u32) -> int {
    let last = if limit >= 1 { limit - 1 } else { 0 };
    if v <= last { v as int } else { last }
}

/// Pixel `(x, y)` lies in box `b` clamped to a `w` by `h` image.
pub open spec fn in_clamped_box(b: BoundingBox, w: u32, h: u32, x: int, y: int) -> bool {
    clamp_last(b.min_x, w) <= x <= clamp_last(b.max_x, w) && clamp_last(b.min_y, h) <= y
        <= clamp_last(b.max_y, h)
}

/// Pixel `(x, y)` lies in one of the first `k` boxes.
pub open spec fn in_some_box(boxes: Seq<BoundingBox>, k: int, w: u32, h: u32, x: int, y: int) -> bool {
    exists|j: int| 0 <= j < k && #[trigger] in_clamped_box(boxes[j], w, h, x, y)
}

pub open spec fn white() -> [u8; 3] {
    [255u8, 255u8, 255u8]
}

/// A pixel after wiping: white inside a box or when highlight-coloured,
/// unchanged otherwise.
pub open spec fn wiped(boxes: Seq<BoundingBox>, w: u32, h: u32, x: int, y: int, old: [u8; 3]) -> [u8; 3] {
    if in_some_box(boxes, boxes.len() as int, w, h, x, y) || spec_is_highlight_pixel(
        old[0],
        old[1],
        old[2],
    ) {
        white()
    } else {
        old
    }
}

fn clamp_last_exec(v: u32, limit: u32) -> (r: u32)
    ensures
        r == clamp_last(v, limit),
{
    let last = if limit >= 1 { limit - 1 } else { 0 };
    if v <= last { v } else { last }
}

/// Paints a rectangle white.
fn fill_white(img: &mut PixelImage, x0: u32, x1: u32, y0: u32, y1: u32)
    requires
        old(img).wf(),
        x1 < old(img).spec_width() || x0 > x1,
        y1 < old(img).spec_height() || y0 > y1,
    ensures
        final(img).wf(),
        final(img).spec_width() == old(img).spec_width(),
        final(img).spec_height() == old(img).spec_height(),
        forall|a: int, b: int|
            0 <= a < old(img).spec_width() && 0 <= b < old(img).spec_height() ==> #[trigger] final(img).pixel(a, b)
                == if x0 <= a <= x1 && y0 <= b <= y1 {
                white()
            } else {
                old(img).pixel(a, b)
            },
{
    if x0 > x1 || y0 > y1 {
        return;
    }
    let w = img.width();
    let h = img.height();
    let mut y = y0;
    while y <= y1
        invariant
            img.wf(),
            img.spec_width() == w && w == old(img).spec_width(),
            img.spec_height() == h && h == old(img).spec_height(),
            x0 <= x1 < w,
            y0 <= y <= y1 + 1,
            y1 < h,
            forall|a: int, b: int|
                0 <= a < w && 0 <= b < h ==> #[trigger] img.pixel(a, b) == if x0 <= a <= x1 && y0 <= b < y {
                    white()
                } else {
                    old(img).pixel(a, b)
                },
        decreases y1 + 1 - y,
    {
        let mut x = x0;
        while x <= x1
            invariant
                img.wf(),
                img.spec_width() == w && w == old(img).spec_width(),
                img.spec_height() == h && h == old(img).spec_height(),
                x0 <= x <= x1 + 1,
                x1 < w,
                y0 <= y <= y1,
                y1 < h,
                forall|a: int, b: int|
                    0 <= a < w && 0 <= b < h ==> #[trigger] img.pixel(a, b) == if (x0 <= a <= x1 && y0 <= b < y)
                        || (x0 <= a < x && b == y) {
                        white()
                    } else {
                        old(img).pixel(a, b)
                    },
            decreases x1 + 1 - x,
        {
            img.put_pixel(x, y, [255, 255, 255]);
            x += 1;
        }
        y += 1;
    }
}

/// Wipes highlighted areas to white: every box (clamped to the image) is
/// filled with white, then every remaining highlight-coloured pixel too.
pub fn erase_highlight_boxes(img: &mut PixelImage, boxes: &[BoundingBox])
    requires
        old(img).wf(),
        boxes.len() > 0 ==> old(img).spec_width() > 0 && old(img).spec_height() > 0,
    ensures
        final(img).wf(),
        final(img).spec_width() == old(img).spec_width(),
        final(img).spec_height() == old(img).spec_height(),
        forall|x: int, y: int|
            0 <= x < old(img).spec_width() && 0 <= y < old(img).spec_height() ==> #[trigger] final(img).pixel(x, y)
                == wiped(
                boxes@,
                old(img).spec_width(),
                old(img).spec_height(),
                x,
                y,
                old(img).pixel(x, y),
            ),
{
    let w = img.width();
    let h = img.height();
    let mut k: usize = 0;
    while k < boxes.len()
        invariant
            k <= boxes.len(),
            boxes.len() > 0 ==> w > 0 && h > 0,
            img.wf(),
            img.spec_width() == w && w == old(img).spec_width(),
            img.spec_height() == h && h == old(img).spec_height(),
            forall|x: int, y: int|
                0 <= x < w && 0 <= y < h ==> #[trigger] img.pixel(x, y) == if in_some_box(
                    boxes@,
                    k as int,
                    w,
                    h,
                    x,
                    y,
                ) {
                    white()
                } else {
                    old(img).pixel(x, y)
                },
        decreases boxes.len() - k,
    {
        let b = &boxes[k];
        let x0 = clamp_last_exec(b.min_x, w);
        let x1 = clamp_last_exec(b.max_x, w);
        let y0 = clamp_last_exec(b.min_y, h);
        let y1 = clamp_last_exec(b.max_y, h);
        let ghost before = *img;
        fill_white(img, x0, x1, y0, y1);
        proof {
            assert forall|x: int, y: int| 0 <= x < w && 0 <= y < h implies #[trigger] img.pixel(x, y)
                == if in_some_box(boxes@, k + 1, w, h, x, y) {
                white()
            } else {
                old(img).pixel(x, y)
            } by {
                if in_clamped_box(boxes@[k as int], w, h, x, y) {
                    assert(in_some_box(boxes@, k + 1, w, h, x, y));
                } else if in_some_box(boxes@, k as int, w, h, x, y) {
                    let j = choose|j: int| 0 <= j < k && #[trigger] in_clamped_box(boxes@[j], w, h, x, y);
                    assert(in_clamped_box(boxes@[j], w, h, x, y));
                    assert(in_some_box(boxes@, k + 1, w, h, x, y));
                } else {
                    assert forall|j: int| 0 <= j < k + 1 implies !#[trigger] in_clamped_box(boxes@[j], w, h, x, y) by {
                        if j < k {
                            assert(!in_some_box(boxes@, k as int, w, h, x, y));
                        }
                    }
                }
            }
        }
        k += 1;
    }
    let ghost after_boxes = *img;
    let mut y: u32 = 0;
    while y < h
        invariant
            y <= h,
            img.wf(),
            img.spec_width() == w && w == old(img).spec_width(),
            img.spec_height() == h && h == old(img).spec_height(),
            after_boxes.wf(),
            forall|a: int, b: int|
                0 <= a < w && 0 <= b < h ==> #[trigger] after_boxes.pixel(a, b) == if in_some_box(
                    boxes@,
                    boxes@.len() as int,
                    w,
                    h,
                    a,
                    b,
                ) {
                    white()
                } else {
                    old(img).pixel(a, b)
                },
            forall|a: int, b: int|
                0 <= a < w && 0 <= b < h ==> #[trigger] img.pixel(a, b) == if b < y {
                    wiped(boxes@, w, h, a, b, old(img).pixel(a, b))
                } else {
                    after_boxes.pixel(a, b)
                },
        decreases h - y,
    {
        let mut x: u32 = 0;
        while x < w
            invariant
                x <= w,
                y < h,
                img.wf(),
                img.spec_width() == w && w == old(img).spec_width(),
                img.spec_height() == h && h == old(img).spec_height(),
                forall|a: int, b: int|
                    0 <= a < w && 0 <= b < h ==> #[trigger] after_boxes.pixel(a, b) == if in_some_box(
                        boxes@,
                        boxes@.len() as int,
                        w,
                        h,
                        a,
                        b,
                    ) {
                        white()
                    } else {
                        old(img).pixel(a, b)
                    },
                forall|a: int, b: int|
                    0 <= a < w && 0 <= b < h ==> #[trigger] img.pixel(a, b) == if b < y || (b == y && a < x) {
                        wiped(boxes@, w, h, a, b, old(img).pixel(a, b))
                    } else {
                        after_boxes.pixel(a, b)
                    },
            decreases w - x,
        {
            let p = img.get_pixel(x, y);
            if is_highlight_pixel(p[0], p[1], p[2]) {
                img.put_pixel(x, y, [255, 255, 255]);
            } else {
                proof {
                    let op = old(img).pixel(x as int, y as int);
                    if in_some_box(boxes@, boxes@.len() as int, w, h, x as int, y as int) {
                        assert(!spec_is_highlight_pixel(255, 255, 255));
                    }
                }
            }
            x += 1;
        }
        y += 1;
    }
}

/// After wiping, no pixel has a highlight colour any more.
pub proof fn lemma_wiped_has_no_highlight(
    boxes: Seq<BoundingBox>,
    w: u32,
    h: u32,
    x: int,
    y: int,
    old: [u8; 3],
)
    ensures
        !spec_is_highlight_pixel(
            wiped(boxes, w, h, x, y, old)[0],
            wiped(boxes, w, h, x, y, old)[1],
            wiped(boxes, w, h, x, y, old)[2],
        ),
{
}

// ---------------------------------------------------------------------------
// Detecting highlights
// ---------------------------------------------------------------------------
/// Number of `true` entries.
pub open spec fn count_true(s: Seq<bool>) -> nat
    decreases s.len(),
{
    if s.len() == 0 {
        0
    } else {
        count_true(s.drop_last()) + if s.last() { 1nat } else { 0nat }
    }
}

pub proof fn lemma_count_true_le(s: Seq<bool>)
    ensures
        count_true(s) <= s.len(),
    decreases s.len(),
{
    if s.len() > 0 {
        lemma_count_true_le(s.drop_last());
    }
}

pub proof fn lemma_count_true_set(s: Seq<bool>, i: int)
    requires
        0 <= i < s.len(),
        !s[i],
    ensures
        count_true(s.update(i, true)) == count_true(s) + 1,
    decreases s.len(),
{
    let t = s.update(i, true);
    if i == s.len() - 1 {
        assert(t.drop_last() =~= s.drop_last());
    } else {
        lemma_count_true_set(s.drop_last(), i);
        assert(t.drop_last() =~= s.drop_last().update(i, true));
    }
}

/// Takes pixel (`x`, `y`) into the area being walked if it is highlighted
/// and not taken yet; gives its colour if it did.
fn take_highlight(img: &PixelImage, visited: &mut Vec<bool>, queue: &mut Vec<(u32, u32)>, x: u32, y: u32) -> (r: Option<
    [u8; 3],
>)
    requires
        img.wf(),
        x < img.spec_width(),
        y < img.spec_height(),
        img.spec_width() as int * img.spec_height() as int <= u32::MAX,
        old(visited)@.len() == img.spec_width() as int * img.spec_height() as int,
    ensures
        (r is Some) == (hl_at(*img, (x, y)) && !old(visited)@[ix(img.spec_width() as int, (x, y))]),
        r matches Some(c) ==> c == img.pixel(x as int, y as int) && final(visited)@ == old(visited)@.update(
            ix(img.spec_width() as int, (x, y)),
            true,
        ) && final(queue)@ == old(queue)@.push((x, y)),
        r is None ==> final(visited)@ == old(visited)@ && final(queue)@ == old(queue)@,
{
    let w = img.width();
    proof {
        lemma_ix(w as int, img.spec_height() as int, (x, y));
        assert(y * w <= y * w + x);
    }
    let idx = (y * w + x) as usize;
    if !visited[idx] {
        let np = img.get_pixel(x, y);
        if is_highlight_pixel(np[0], np[1], np[2]) {
            visited.set(idx, true);
            queue.push((x, y));
            return Some(np);
        }
    }
    None
}

/// Takes the highlighted pixels touching the queued pixel `c` (the
/// `ci`-th) into the area being walked, adding their colours to the sums.
#[verifier::spinoff_prover]
#[verifier::rlimit(40)]
fn take_touching(
    img: &PixelImage,
    visited: &mut Vec<bool>,
    queue: &mut Vec<(u32, u32)>,
    sum_r: &mut u64,
    sum_g: &mut u64,
    sum_b: &mut u64,
    c: (u32, u32),
    Ghost(lab0): Ghost<Seq<int>>,
    Ghost(comps): Ghost<Seq<Seq<(u32, u32)>>>,
    Ghost(ci): Ghost<int>,
    Ghost(seed): Ghost<(u32, u32)>,
) -> (lab: Ghost<Seq<int>>)
    requires
        img.wf(),
        0 < img.spec_width() < COORD_LIMIT,
        0 < img.spec_height() < COORD_LIMIT,
        img.spec_width() as int * img.spec_height() as int <= u32::MAX,
        old(visited)@.len() == img.spec_width() as int * img.spec_height() as int,
        areas_ok(*img, old(visited)@, lab0, comps),
        walk8_ok(*img, lab0, comps.len() as int, old(queue)@, ci, seed),
        0 <= ci < old(queue)@.len(),
        old(queue)@[ci] == c,
        before_visited(*img, old(visited)@, seed),
        old(queue)@.len() <= count_true(old(visited)@) <= old(visited)@.len(),
        *old(sum_r) == area_sum(*img, old(queue)@, 0),
        *old(sum_g) == area_sum(*img, old(queue)@, 1),
        *old(sum_b) == area_sum(*img, old(queue)@, 2),
        area_sum(*img, old(queue)@, 0) <= 255 * old(queue)@.len(),
        area_sum(*img, old(queue)@, 1) <= 255 * old(queue)@.len(),
        area_sum(*img, old(queue)@, 2) <= 255 * old(queue)@.len(),
    ensures
        final(visited)@.len() == old(visited)@.len(),
        old(queue)@.len() <= final(queue)@.len(),
        areas_ok(*img, final(visited)@, lab@, comps),
        walk8_ok(*img, lab@, comps.len() as int, final(queue)@, ci + 1, seed),
        before_visited(*img, final(visited)@, seed),
        final(queue)@.len() <= count_true(final(visited)@) <= final(visited)@.len(),
        final(queue)@.len() - old(queue)@.len() == count_true(final(visited)@) - count_true(old(visited)@),
        forall|k: int| 0 <= k < old(queue)@.len() ==> #[trigger] final(queue)@[k] == old(queue)@[k],
        *final(sum_r) == area_sum(*img, final(queue)@, 0),
        *final(sum_g) == area_sum(*img, final(queue)@, 1),
        *final(sum_b) == area_sum(*img, final(queue)@, 2),
        area_sum(*img, final(queue)@, 0) <= 255 * final(queue)@.len(),
        area_sum(*img, final(queue)@, 1) <= 255 * final(queue)@.len(),
        area_sum(*img, final(queue)@, 2) <= 255 * final(queue)@.len(),
{
    let w = img.width();
    let h = img.height();
    let ghost cur = comps.len() as int;
    let ghost q0 = queue@;
    let ghost v0 = visited@;
    let ghost mut lab = lab0;
    proof {
        lemma_queued8(*img, visited@, lab, comps, cur, queue@, ci, seed, ci);
    }
    let dx: [i32; 8] = [-1, 0, 1, -1, 1, -1, 0, 1];
    let dy: [i32; 8] = [-1, -1, -1, 0, 0, 1, 1, 1];
    let (cx, cy) = c;
    let mut dir: usize = 0;
    while dir < 8
        invariant
            img.wf(),
            w == img.spec_width() && h == img.spec_height(),
            0 < w < COORD_LIMIT,
            0 < h < COORD_LIMIT,
            w as int * h as int <= u32::MAX,
            c == (cx, cy),
            cx < w && cy < h,
            dx@ == neighbour_dx(),
            dy@ == neighbour_dy(),
            dir <= 8,
            visited@.len() == v0.len(),
            v0.len() == w as int * h as int,
            lab.len() == lab0.len(),
            areas_ok(*img, visited@, lab, comps),
            walk8_ok(*img, lab, cur, queue@, ci, seed),
            cur == comps.len(),
            0 <= ci < q0.len(),
            q0.len() <= queue@.len(),
            forall|k: int| 0 <= k < q0.len() ==> #[trigger] queue@[k] == q0[k],
            queue@[ci] == c,
            before_visited(*img, visited@, seed),
            queue@.len() <= count_true(visited@) <= visited@.len(),
            queue@.len() - q0.len() == count_true(visited@) - count_true(v0),
            forall|d: int| 0 <= d < dir ==> #[trigger] dir_done(*img, lab, c, d, cur),
            *sum_r == area_sum(*img, queue@, 0),
            *sum_g == area_sum(*img, queue@, 1),
            *sum_b == area_sum(*img, queue@, 2),
            area_sum(*img, queue@, 0) <= 255 * queue@.len(),
            area_sum(*img, queue@, 1) <= 255 * queue@.len(),
            area_sum(*img, queue@, 2) <= 255 * queue@.len(),
        decreases 8 - dir,
    {
        let nx = cx as i32 + dx[dir];
        let ny = cy as i32 + dy[dir];
        let ghost lab_before = lab;
        if nx >= 0 && nx < w as i32 && ny >= 0 && ny < h as i32 {
            let q = (nx as u32, ny as u32);
            proof {
                lemma_dir_touch(c, dir as int);
            }
            let ghost (ov, oq, ol) = (visited@, queue@, lab);
            let taken = take_highlight(img, visited, queue, nx as u32, ny as u32);
            proof {
                lab = lemma_after_take8(*img, ov, visited@, ol, comps, oq, queue@, ci, seed, q, taken is Some);
            }
            if let Some(np) = taken {
                proof {
                    lemma_area_sum_push(*img, oq, q, 0);
                    lemma_area_sum_push(*img, oq, q, 1);
                    lemma_area_sum_push(*img, oq, q, 2);
                    assert(queue@.len() <= count_true(visited@));
                    assert(queue@.len() <= u32::MAX);
                }
                *sum_r = *sum_r + np[0] as u64;
                *sum_g = *sum_g + np[1] as u64;
                *sum_b = *sum_b + np[2] as u64;
            }
            proof {
                assert(dir_done(*img, lab, c, dir as int, cur));
            }
        }
        proof {
            assert forall|d: int| 0 <= d <= dir implies #[trigger] dir_done(*img, lab, c, d, cur) by {
                if d < dir {
                    assert(dir_done(*img, lab_before, c, d, cur));
                    let (px, py) = dir_point(c, d);
                    if 0 <= px < w && 0 <= py < h && hl_at(*img, (px as u32, py as u32)) {
                        assert(in_grid(w as int, h as int, (px as u32, py as u32)));
                        assert(lab[ix(w as int, (px as u32, py as u32))] == cur);
                    }
                }
            }
        }
        dir += 1;
    }
    proof {
        lemma_dirs_done(*img, lab, c, cur);
        lemma_walk8_step(*img, lab, cur, queue@, ci, seed);
    }
    Ghost(lab)
}

/// Finds the highlighted areas of a page image: the bounding boxes of the
/// 8-connected areas of highlight-coloured pixels that are at least 15
/// pixels wide, 8 high and 30 pixels large, named by their average colour,
/// then merged with `merge_close_boxes`.
pub fn detect_highlight_boxes(img: &PixelImage) -> (r: Vec<BoundingBox>)
    requires
        img.wf(),
        img.spec_width() as int * img.spec_height() as int <= u32::MAX,
        img.spec_width() < COORD_LIMIT,
        img.spec_height() < COORD_LIMIT,
    ensures
        exists|comps: Seq<Seq<(u32, u32)>>, raw: Seq<BoundingBox>|
            highlight_areas(*img, comps) && #[trigger] boxes_of_areas(*img, comps, raw) && r@ == merge_fixpoint(
                raw,
            ),
{
    let w = img.width();
    let h = img.height();
    if w == 0 || h == 0 {
        let r: Vec<BoundingBox> = Vec::new();
        proof {
            let comps = Seq::<Seq<(u32, u32)>>::empty();
            assert(kept_areas(comps) =~= Seq::<Seq<(u32, u32)>>::empty());
            assert(highlight_areas(*img, comps));
            assert(boxes_of_areas(*img, comps, r@));
            assert(all_in_range(r@));
        }
        return r;
    }
    let n: u32 = w * h;
    let mut visited: Vec<bool> = Vec::new();
    let mut k: u32 = 0;
    while k < n
        invariant
            k <= n,
            visited@.len() == k,
            forall|i: int| 0 <= i < k ==> !#[trigger] visited@[i],
        decreases n - k,
    {
        visited.push(false);
        k += 1;
    }
    let ghost mut lab: Seq<int> = Seq::new(n as nat, |i: int| -1int);
    let ghost mut comps: Seq<Seq<(u32, u32)>> = Seq::empty();
    let mut raw: Vec<BoundingBox> = Vec::new();
    proof {
        lemma_count_zero(visited@);
        reveal(areas_ok);
        assert forall|p: (u32, u32)| in_grid(w as int, h as int, p) implies (visited@[ix(w as int, p)] <==> #[trigger] lab[ix(
            w as int,
            p,
        )] >= 0) by {
            lemma_ix(w as int, h as int, p);
        }
        assert forall|p: (u32, u32)| in_grid(w as int, h as int, p) && #[trigger] lab[ix(w as int, p)] >= 0 implies hl_at(
            *img,
            p,
        ) && lab[ix(w as int, p)] <= comps.len() by {
            lemma_ix(w as int, h as int, p);
        }
        assert forall|p: (u32, u32)| in_grid(w as int, h as int, p) && 0 <= #[trigger] lab[ix(w as int, p)] < comps.len()
            implies in_area(comps[lab[ix(w as int, p)]], p) && nbrs8_done(*img, lab, p, lab[ix(w as int, p)]) by {
            lemma_ix(w as int, h as int, p);
        }
        assert(areas_ok(*img, visited@, lab, comps));
        assert forall|p: (u32, u32)| in_grid(w as int, h as int, p) implies #[trigger] lab[ix(w as int, p)] < comps.len() by {
            lemma_ix(w as int, h as int, p);
        }
        assert(kept_areas(comps) =~= Seq::<Seq<(u32, u32)>>::empty());
    }
    let mut y: u32 = 0;
    while y < h
        invariant
            img.wf(),
            w == img.spec_width() && h == img.spec_height(),
            0 < w < COORD_LIMIT,
            0 < h < COORD_LIMIT,
            n as int == w as int * h as int,
            y <= h,
            visited@.len() == n,
            areas_ok(*img, visited@, lab, comps),
            none_walking(*img, lab, comps.len() as int),
            before_visited(*img, visited@, (0u32, y)),
            seeds_before(comps, (0u32, y)),
            boxes_of_areas(*img, comps, raw@),
            all_in_range(raw@),
        decreases h - y,
    {
        let mut x: u32 = 0;
        while x < w
            invariant
                img.wf(),
                w == img.spec_width() && h == img.spec_height(),
                0 < w < COORD_LIMIT,
                0 < h < COORD_LIMIT,
                n as int == w as int * h as int,
                y < h,
                x <= w,
                visited@.len() == n,
                areas_ok(*img, visited@, lab, comps),
                none_walking(*img, lab, comps.len() as int),
                before_visited(*img, visited@, (x, y)),
                seeds_before(comps, (x, y)),
                boxes_of_areas(*img, comps, raw@),
                all_in_range(raw@),
            decreases w - x,
        {
            let mut queue: Vec<(u32, u32)> = Vec::new();
            let ghost ov = visited@;
            let ghost ol = lab;
            proof {
                lemma_count_true_le(visited@);
            }
            let first = take_highlight(img, &mut visited, &mut queue, x, y);
            if let Some(pixel) = first {
                let ghost cur = comps.len() as int;
                let ghost seed = (x, y);
                proof {
                    lab = ol.update(ix(w as int, seed), cur);
                    lemma_start8(*img, ov, visited@, ol, lab, comps, seed, cur);
                    lemma_ix(w as int, h as int, seed);
                    lemma_count_true_set(ov, ix(w as int, seed));
                    lemma_count_true_le(visited@);
                    assert(queue@ =~= seq![seed]);
                    assert(queue@.drop_last() =~= Seq::<(u32, u32)>::empty());
                    assert(queue@.take(1) =~= queue@);
                    assert forall|p: (u32, u32)| #[trigger] hl_at(*img, p) && scan_before(p, seed) implies visited@[ix(
                        w as int,
                        p,
                    )] by {
                        lemma_ix(w as int, h as int, p);
                    }
                }
                let mut min_x = x;
                let mut max_x = x;
                let mut min_y = y;
                let mut max_y = y;
                let mut pixels: u64 = 0;
                let mut sum_r: u64 = pixel[0] as u64;
                let mut sum_g: u64 = pixel[1] as u64;
                let mut sum_b: u64 = pixel[2] as u64;
                proof {
                    assert(area_sum(*img, Seq::<(u32, u32)>::empty(), 0) == 0);
                    assert(area_sum(*img, Seq::<(u32, u32)>::empty(), 1) == 0);
                    assert(area_sum(*img, Seq::<(u32, u32)>::empty(), 2) == 0);
                    assert(queue@.last() == seed);
                    assert(area_sum(*img, queue@, 0) == pixel[0] as int);
                    assert(area_sum(*img, queue@, 1) == pixel[1] as int);
                    assert(area_sum(*img, queue@, 2) == pixel[2] as int);
                }
                let mut head: usize = 0;
                while head < queue.len()
                    invariant
                        img.wf(),
                        w == img.spec_width() && h == img.spec_height(),
                        0 < w < COORD_LIMIT,
                        0 < h < COORD_LIMIT,
                        n as int == w as int * h as int,
                        y < h,
                        x < w,
                        visited@.len() == n,
                        cur == comps.len(),
                        seed == (x, y),
                        areas_ok(*img, visited@, lab, comps),
                        walk8_ok(*img, lab, cur, queue@, head as int, seed),
                        before_visited(*img, visited@, seed),
                        seeds_before(comps, (x, y)),
                        boxes_of_areas(*img, comps, raw@),
                        all_in_range(raw@),
                        1 <= queue@.len() <= count_true(visited@) <= n,
                        head <= queue@.len(),
                        pixels == head,
                        head == 0 ==> min_x == x && max_x == x && min_y == y && max_y == y,
                        head >= 1 ==> min_x == area_min_x(queue@.take(head as int)) && max_x == area_max_x(
                            queue@.take(head as int),
                        ) && min_y == area_min_y(queue@.take(head as int)) && max_y == area_max_y(
                            queue@.take(head as int),
                        ),
                        min_x <= max_x < w,
                        min_y <= max_y < h,
                        sum_r == area_sum(*img, queue@, 0),
                        sum_g == area_sum(*img, queue@, 1),
                        sum_b == area_sum(*img, queue@, 2),
                        area_sum(*img, queue@, 0) <= 255 * queue@.len(),
                        area_sum(*img, queue@, 1) <= 255 * queue@.len(),
                        area_sum(*img, queue@, 2) <= 255 * queue@.len(),
                    decreases n - count_true(visited@), queue@.len() - head,
                {
                    let (cx, cy) = queue[head];
                    proof {
                        lemma_queued8(*img, visited@, lab, comps, cur, queue@, head as int, seed, head as int);
                        if head >= 1 {
                            lemma_area_extent_step(queue@, head as int);
                        } else {
                            assert(queue@.take(1).len() == 1);
                        }
                    }
                    let ghost ci = head as int;
                    let ghost q_mid = queue@;
                    head += 1;
                    pixels += 1;
                    if cx < min_x {
                        min_x = cx;
                    }
                    if cx > max_x {
                        max_x = cx;
                    }
                    if cy < min_y {
                        min_y = cy;
                    }
                    if cy > max_y {
                        max_y = cy;
                    }
                    let lab_after = take_touching(
                        img,
                        &mut visited,
                        &mut queue,
                        &mut sum_r,
                        &mut sum_g,
                        &mut sum_b,
                        (cx, cy),
                        Ghost(lab),
                        Ghost(comps),
                        Ghost(ci),
                        Ghost(seed),
                    );
                    proof {
                        lab = lab_after@;
                        assert(queue@.take(head as int) =~= q_mid.take(head as int));
                    }
                }
                let ghost area = queue@;
                proof {
                    lemma_queued8(*img, visited@, lab, comps, cur, area, head as int, seed, 0);
                    assert(area.take(head as int) =~= area);
                    lemma_close8(*img, visited@, lab, comps, area, cur, seed);
                }
                let bw = max_x - min_x + 1;
                let bh = max_y - min_y + 1;
                let ghost old_raw = raw@;
                if bw >= 15 && bh >= 8 && pixels >= 30 {
                    proof {
                        lemma_average_fits(sum_r as int, pixels as int);
                        lemma_average_fits(sum_g as int, pixels as int);
                        lemma_average_fits(sum_b as int, pixels as int);
                    }
                    let avg_r = (sum_r / pixels) as u8;
                    let avg_g = (sum_g / pixels) as u8;
                    let avg_b = (sum_b / pixels) as u8;
                    let name = classify_highlight_color(avg_r, avg_g, avg_b);
                    let b = BoundingBox { min_x, min_y, max_x, max_y, highlight: Some(name.to_owned()) };
                    proof {
                        assert(area_box_ok(*img, area, b));
                        lemma_kept_push(*img, comps, area, raw@, b);
                    }
                    raw.push(b);
                    assert forall|k: int| 0 <= k < raw@.len() implies #[trigger] in_range(raw@[k]) by {
                        if k < old_raw.len() {
                            assert(raw@[k] == old_raw[k]);
                        }
                    }
                } else {
                    proof {
                        lemma_kept_push(*img, comps, area, raw@, arbitrary());
                    }
                }
                proof {
                    comps = comps.push(area);
                    assert forall|s: int| 0 <= s < comps.len() implies scan_before((#[trigger] comps[s])[0], (
                    (x + 1) as u32, y)) by {
                        if s < cur {
                            assert(scan_before(comps[s][0], (x, y)));
                        } else {
                            assert(comps[s] == area);
                        }
                    }
                }
            } else {
                proof {
                    assert forall|s: int| 0 <= s < comps.len() implies scan_before((#[trigger] comps[s])[0], (
                    (x + 1) as u32, y)) by {
                        assert(scan_before(comps[s][0], (x, y)));
                    }
                }
            }
            proof {
                lemma_ix(w as int, h as int, (x, y));
                assert forall|p: (u32, u32)| #[trigger] hl_at(*img, p) && scan_before(p, ((x + 1) as u32, y)) implies visited@[ix(
                    w as int,
                    p,
                )] by {
                    if p != (x, y) {
                        assert(scan_before(p, (x, y)));
                    }
                }
            }
            x += 1;
        }
        proof {
            assert forall|p: (u32, u32)| #[trigger] hl_at(*img, p) && scan_before(p, (0u32, (y + 1) as u32)) implies visited@[ix(
                w as int,
                p,
            )] by {
                assert(scan_before(p, (x, y)));
            }
            assert forall|s: int| 0 <= s < comps.len() implies scan_before((#[trigger] comps[s])[0], (0u32, (y + 1) as u32)) by {
                assert(scan_before(comps[s][0], (x, y)));
            }
        }
        y += 1;
    }
    proof {
        lemma_finish8(*img, visited@, lab, comps);
    }
    let ghost raw_view = raw@;
    let r = merge_close_boxes(raw);
    assert(highlight_areas(*img, comps) && boxes_of_areas(*img, comps, raw_view) && r@ == merge_fixpoint(raw_view));
    r
}

/// Column offsets of the eight neighbours of a pixel.
pub open spec fn neighbour_dx() -> Seq<i32> {
    seq![-1i32, 0i32, 1i32, -1i32, 1i32, -1i32, 0i32, 1i32]
}

/// Row offsets of the eight neighbours of a pixel.
pub open spec fn neighbour_dy() -> Seq<i32> {
    seq![-1i32, -1i32, -1i32, 0i32, 0i32, 1i32, 1i32, 1i32]
}

proof fn lemma_average_fits(sum: int, count: int)
    requires
        0 <= sum <= 255 * count,
        0 < count,
    ensures
        sum / count <= 255,
{
    assert(sum / count <= 255) by (nonlinear_arith)
        requires
            0 <= sum <= 255 * count,
            0 < count,
    ;
}

pub proof fn lemma_count_zero(s: Seq<bool>)
    requires
        forall|i: int| 0 <= i < s.len() ==> !#[trigger] s[i],
    ensures
        count_true(s) == 0,
    decreases s.len(),
{
    if s.len() > 0 {
        lemma_count_zero(s.drop_last());
    }
}

} // verus!
