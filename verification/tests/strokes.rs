use handwrite_sim::engine::draw_printed_mask;
use handwrite_sim::strokes::{label_strokes, StrokePixels};

fn square_mask(w: usize, h: usize, squares: &[(usize, usize, usize, usize)]) -> Vec<bool> {
    let mut mask = vec![false; w * h];
    for &(x0, x1, y0, y1) in squares {
        for y in y0..y1 {
            for x in x0..x1 {
                mask[y * w + x] = true;
            }
        }
    }
    mask
}

fn centroid(s: &StrokePixels) -> (f64, f64) {
    let (mut sx, mut sy) = (0.0f64, 0.0f64);
    for &(x, y) in &s.pixels {
        sx += x as f64;
        sy += y as f64;
    }
    let n = s.pixels.len() as f64;
    (sx / n, sy / n)
}

#[test]
fn two_separate_squares_are_two_strokes() {
    let (w, h) = (400usize, 300usize);
    let mask = square_mask(w, h, &[(40, 60, 240, 260), (340, 360, 40, 60)]);
    let strokes = label_strokes(&mask, w, h);
    assert_eq!(strokes.len(), 2);
    // scan order: the upper square comes first
    assert_eq!(strokes[0].pixels[0], (340, 40));
    assert_eq!(strokes[1].pixels[0], (40, 240));
    assert_eq!(strokes[0].pixels.len(), 400);
    assert_eq!(strokes[1].pixels.len(), 400);
    assert_eq!((strokes[0].min_x, strokes[0].max_x, strokes[0].min_y, strokes[0].max_y), (340, 359, 40, 59));
    assert_eq!((strokes[1].min_x, strokes[1].max_x, strokes[1].min_y, strokes[1].max_y), (40, 59, 240, 259));
    let (cx, cy) = centroid(&strokes[1]);
    assert!((cx - 49.5).abs() < 1e-9 && (cy - 249.5).abs() < 1e-9);
}

#[test]
fn empty_mask_has_no_strokes() {
    let mask = vec![false; 100];
    assert!(label_strokes(&mask, 10, 10).is_empty());
    assert!(label_strokes(&[], 0, 0).is_empty());
}

#[test]
fn diagonal_pixels_are_not_connected() {
    // 4-connectivity: pixels that only meet at a corner stay apart
    let (w, h) = (3usize, 3usize);
    let mut mask = vec![false; w * h];
    mask[0] = true;
    mask[4] = true;
    mask[8] = true;
    let strokes = label_strokes(&mask, w, h);
    assert_eq!(strokes.len(), 3);
    assert_eq!(strokes[0].pixels, vec![(0, 0)]);
    assert_eq!(strokes[1].pixels, vec![(1, 1)]);
    assert_eq!(strokes[2].pixels, vec![(2, 2)]);
}

#[test]
fn walk_visits_breadth_first() {
    // an L shape: the walk meets the pixels in breadth-first order
    //   X X X
    //   X . .
    //   X . .
    let (w, h) = (3usize, 3usize);
    let mut mask = vec![false; w * h];
    for i in [0usize, 1, 2, 3, 6] {
        mask[i] = true;
    }
    let strokes = label_strokes(&mask, w, h);
    assert_eq!(strokes.len(), 1);
    assert_eq!(strokes[0].pixels, vec![(0, 0), (1, 0), (0, 1), (2, 0), (0, 2)]);
    assert_eq!((strokes[0].min_x, strokes[0].max_x, strokes[0].min_y, strokes[0].max_y), (0, 2, 0, 2));
}

#[test]
fn row_wrap_does_not_join_strokes() {
    // the last pixel of a row and the first of the next are not neighbours
    let (w, h) = (4usize, 2usize);
    let mut mask = vec![false; w * h];
    mask[3] = true;
    mask[4] = true;
    let strokes = label_strokes(&mask, w, h);
    assert_eq!(strokes.len(), 2);
    assert_eq!(strokes[0].pixels, vec![(3, 0)]);
    assert_eq!(strokes[1].pixels, vec![(0, 1)]);
}

#[test]
fn ring_is_one_stroke() {
    let (w, h) = (5usize, 5usize);
    let mut mask = square_mask(w, h, &[(0, 5, 0, 5)]);
    mask[12] = false;
    let strokes = label_strokes(&mask, w, h);
    assert_eq!(strokes.len(), 1);
    assert_eq!(strokes[0].pixels.len(), 24);
    assert!(!strokes[0].pixels.contains(&(2, 2)));
}

#[test]
fn printed_mask_paints_set_pixels() {
    let (w, h) = (2usize, 2usize);
    let mask = vec![true, false, false, true];
    let mut canvas = vec![255u8; w * h * 3];
    draw_printed_mask(&mask, w, h, [1, 2, 3], &mut canvas);
    assert_eq!(canvas, vec![1, 2, 3, 255, 255, 255, 255, 255, 255, 1, 2, 3]);
}
