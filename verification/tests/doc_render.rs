use handwrite_sim::boxes::{merge_close_boxes, BoundingBox};
use handwrite_sim::documents::{document_kind, page_prefix, word_com_script, DocRenderError};
use handwrite_sim::highlight::{
    classify_highlight_color, detect_highlight_boxes, erase_highlight_boxes, is_highlight_pixel,
    PixelImage,
};
use handwrite_sim::regions::{region_roles, TagArea};
use handwrite_sim::styles::StyleRegistry;
use handwrite_sim::tags::{scan_text_tags, strip_tag_syntax};

#[test]
fn unsupported_extension_rejected() {
    let err = document_kind("a.txt").unwrap_err();
    assert!(matches!(err, DocRenderError::UnsupportedExtension(_)));
}

#[test]
fn page_prefix_sanitized() {
    assert_eq!(page_prefix("我的 文档:v2.pdf"), "我的_文档_v2");
}

#[test]
fn test_highlight_pixel_classifier() {
    // standard highlighter colours
    assert!(is_highlight_pixel(255, 255, 0));
    assert!(is_highlight_pixel(0, 255, 0));
    assert!(is_highlight_pixel(0, 255, 255));
    assert!(is_highlight_pixel(255, 0, 255));
    assert!(is_highlight_pixel(255, 105, 180));
    assert!(is_highlight_pixel(100, 180, 255));
    assert!(is_highlight_pixel(255, 80, 80));

    // paper, ink and greys
    assert!(!is_highlight_pixel(255, 255, 255));
    assert!(!is_highlight_pixel(0, 0, 0));
    assert!(!is_highlight_pixel(30, 30, 30));
    assert!(!is_highlight_pixel(128, 128, 128));
    assert!(!is_highlight_pixel(240, 240, 240));
    assert!(!is_highlight_pixel(200, 205, 202));
}

#[test]
fn test_scan_text_tags() {
    let text1: Vec<char> = "请在此处手写：{{ 签名 }}，祝好！".chars().collect();
    let matches1 = scan_text_tags(&text1);
    assert_eq!(matches1.len(), 1);
    assert_eq!(matches1[0].inner_text, "签名");

    let text2: Vec<char> = "意见：【同意批准】 日期：【2026-09-02】".chars().collect();
    let matches2 = scan_text_tags(&text2);
    assert_eq!(matches2.len(), 2);
    assert_eq!(matches2[0].inner_text, "同意批准");
    assert_eq!(matches2[1].inner_text, "2026-09-02");

    let text3: Vec<char> = "空标签：{{}} 以及未闭合标签 {{ 未闭合".chars().collect();
    let matches3 = scan_text_tags(&text3);
    assert_eq!(matches3.len(), 1);
    assert_eq!(matches3[0].inner_text, "");
}

#[test]
fn test_strip_tag_syntax() {
    assert_eq!(strip_tag_syntax("纯文本内容"), "纯文本内容");
    assert_eq!(strip_tag_syntax("{{ 签名 }}"), "签名");
    assert_eq!(strip_tag_syntax("{{手写:张三}}"), "张三");
    assert_eq!(strip_tag_syntax("{{手写1: 李四}}"), "李四");
    assert_eq!(strip_tag_syntax("{{打印: 2026-09-02}}"), "2026-09-02");
    assert_eq!(strip_tag_syntax("【同意批准】"), "同意批准");
    assert_eq!(strip_tag_syntax("【手写：王五】"), "王五");
    assert_eq!(strip_tag_syntax("{{}}"), "");
    assert_eq!(strip_tag_syntax("【】"), "");
    assert_eq!(strip_tag_syntax("   {{  审核通过  }}   "), "审核通过");
    assert_eq!(strip_tag_syntax("前缀 {{手写:内容}} 后缀"), "前缀 内容 后缀");
    assert_eq!(strip_tag_syntax("前缀 【手写：结论】 后缀"), "前缀 结论 后缀");
}

#[test]
fn test_merge_four_consecutive_line_highlight_boxes() {
    let boxes = vec![
        BoundingBox::with_highlight(100, 50, 400, 70, "yellow"),
        BoundingBox::with_highlight(100, 95, 400, 115, "yellow"),
        BoundingBox::with_highlight(100, 140, 400, 160, "yellow"),
        BoundingBox::with_highlight(100, 185, 400, 205, "yellow"),
    ];

    let merged = merge_close_boxes(boxes);
    assert_eq!(merged.len(), 1, "4 行间距 25px 的连续同色高亮框应合并为 1 个段落包围盒");
    assert_eq!(merged[0].min_x, 100);
    assert_eq!(merged[0].max_x, 400);
    assert_eq!(merged[0].min_y, 50);
    assert_eq!(merged[0].max_y, 205);
    assert_eq!(merged[0].highlight, Some("yellow".into()));
}

#[test]
fn test_merge_does_not_swallow_across_unhighlighted_lines() {
    let boxes = vec![
        BoundingBox::with_highlight(100, 50, 400, 70, "yellow"),
        BoundingBox::with_highlight(100, 95, 400, 115, "yellow"),
        BoundingBox::with_highlight(100, 140, 400, 160, "yellow"),
        BoundingBox::with_highlight(100, 185, 400, 205, "yellow"),
        BoundingBox::with_highlight(150, 314, 350, 334, "yellow"),
    ];

    let merged = merge_close_boxes(boxes);
    assert_eq!(merged.len(), 2, "间隔 109px 的同色高亮框不应合并");
    assert_eq!(merged[0].max_y, 205);
    assert_eq!(merged[1].min_y, 314);
}

#[test]
fn test_detect_highlight_boxes_and_erase() {
    let mut img = PixelImage::filled(400, 300, [255, 255, 255]);

    // a yellow highlight at (50, 60), 100 wide and 30 high
    for y in 60..(60 + 30) {
        for x in 50..(50 + 100) {
            img.put_pixel(x, y, [255, 255, 0]);
        }
    }

    // a cyan highlight at (200, 150), 80 wide and 20 high
    for y in 150..(150 + 20) {
        for x in 200..(200 + 80) {
            img.put_pixel(x, y, [0, 255, 255]);
        }
    }

    // a 5x5 speck of noise, to be filtered out
    for y in 10..15 {
        for x in 10..15 {
            img.put_pixel(x, y, [255, 0, 0]);
        }
    }

    let boxes = detect_highlight_boxes(&img);
    assert_eq!(boxes.len(), 2, "two highlight boxes, the speck filtered out");

    let b1 = boxes.iter().find(|b| b.min_x == 50 && b.min_y == 60).unwrap();
    assert_eq!(b1.width(), 100);
    assert_eq!(b1.height(), 30);

    let b2 = boxes.iter().find(|b| b.min_x == 200 && b.min_y == 150).unwrap();
    assert_eq!(b2.width(), 80);
    assert_eq!(b2.height(), 20);

    erase_highlight_boxes(&mut img, &boxes);

    for y in 60..(60 + 30) {
        for x in 50..(50 + 100) {
            assert_eq!(img.get_pixel(x, y), [255, 255, 255]);
        }
    }
    for y in 150..(150 + 20) {
        for x in 200..(200 + 80) {
            assert_eq!(img.get_pixel(x, y), [255, 255, 255]);
        }
    }
}

#[test]
fn detected_boxes_are_named_by_their_colour() {
    let mut img = PixelImage::filled(60, 20, [255, 255, 255]);
    for y in 2..12 {
        for x in 5..30 {
            img.put_pixel(x, y, [255, 255, 0]);
        }
    }
    let boxes = detect_highlight_boxes(&img);
    assert_eq!(boxes.len(), 1);
    assert_eq!(boxes[0].highlight.as_deref(), Some(classify_highlight_color(255, 255, 0)));
    assert_eq!((boxes[0].min_x, boxes[0].min_y, boxes[0].max_x, boxes[0].max_y), (5, 2, 29, 11));
}

#[test]
fn empty_image_has_no_highlights() {
    let img = PixelImage::filled(0, 0, [255, 255, 0]);
    assert!(detect_highlight_boxes(&img).is_empty());
}

#[test]
fn erase_leaves_pixels_outside_boxes() {
    let mut img = PixelImage::filled(10, 10, [1, 2, 3]);
    let boxes = vec![BoundingBox::new(2, 2, 4, 4)];
    erase_highlight_boxes(&mut img, &boxes);
    assert_eq!(img.get_pixel(3, 3), [255, 255, 255]);
    assert_eq!(img.get_pixel(5, 5), [1, 2, 3]);
    assert_eq!(img.get_pixel(0, 0), [1, 2, 3]);
}

#[test]
fn word_script_quotes_paths() {
    let script = word_com_script("C:\\docs\\it's.docx", "C:\\out\\a.pdf");
    assert_eq!(
        script,
        "$ErrorActionPreference = 'Stop'\n\
         $word = New-Object -ComObject Word.Application\n\
         $word.Visible = $false\n\
         try {\n\
         \x20 $doc = $word.Documents.Open('C:\\docs\\it''s.docx', $false, $true)\n\
         \x20 $doc.SaveAs([ref]'C:\\out\\a.pdf', [ref]17)\n\
         \x20 $doc.Close($false)\n\
         } finally {\n\
         \x20 $word.Quit()\n\
         }\n"
    );
}

#[test]
fn corner_touching_areas_are_one() {
    // two blocks that meet only at a corner form one 8-connected area
    let mut img = PixelImage::filled(60, 30, [255, 255, 255]);
    for y in 0..10 {
        for x in 0..20 {
            img.put_pixel(x, y, [255, 255, 0]);
        }
    }
    for y in 10..20 {
        for x in 20..40 {
            img.put_pixel(x, y, [255, 255, 0]);
        }
    }
    let boxes = detect_highlight_boxes(&img);
    assert_eq!(boxes.len(), 1);
    assert_eq!((boxes[0].min_x, boxes[0].min_y, boxes[0].max_x, boxes[0].max_y), (0, 0, 39, 19));
}

#[test]
fn small_areas_are_dropped() {
    // 14 wide: too narrow; 15 by 8: just large enough
    let mut img = PixelImage::filled(100, 40, [255, 255, 255]);
    for y in 0..10 {
        for x in 0..14 {
            img.put_pixel(x, y, [255, 255, 0]);
        }
    }
    for y in 20..28 {
        for x in 50..65 {
            img.put_pixel(x, y, [255, 255, 0]);
        }
    }
    let boxes = detect_highlight_boxes(&img);
    assert_eq!(boxes.len(), 1);
    assert_eq!((boxes[0].min_x, boxes[0].min_y, boxes[0].max_x, boxes[0].max_y), (50, 20, 64, 27));
}

#[test]
fn area_is_named_by_its_average_colour() {
    // half the pixels (255, 255, 0), half (255, 255, 100): average (255, 255, 50)
    let mut img = PixelImage::filled(40, 20, [255, 255, 255]);
    for y in 0..10 {
        for x in 0..20 {
            let c = if x < 10 { [255, 255, 0] } else { [255, 255, 100] };
            img.put_pixel(x, y, c);
        }
    }
    assert!(is_highlight_pixel(255, 255, 100));
    let boxes = detect_highlight_boxes(&img);
    assert_eq!(boxes.len(), 1);
    assert_eq!(boxes[0].highlight.as_deref(), Some(classify_highlight_color(255, 255, 50)));
}

#[test]
fn strip_tag_syntax_cleans_every_tag() {
    assert_eq!(strip_tag_syntax("{{甲}}和{{乙}}"), "甲和乙");
    assert_eq!(strip_tag_syntax("【甲】和【乙】"), "甲和乙");
    assert_eq!(strip_tag_syntax(" {{手写:甲}} "), "甲");
}

fn colored_box(min_x: u32, min_y: u32, max_x: u32, max_y: u32, color: Option<&str>) -> BoundingBox {
    BoundingBox { min_x, min_y, max_x, max_y, highlight: color.map(|c| c.to_string()) }
}

fn tag_area(x: i32, y: i32, w: i32, h: i32, has_text: bool) -> TagArea {
    TagArea { x, y, w, h, has_text }
}

#[test]
fn region_roles_follow_colours_and_take_overlapping_tags_once() {
    let boxes = vec![
        colored_box(10, 10, 50, 20, Some("yellow")),
        colored_box(10, 40, 50, 50, Some("green")),
        colored_box(10, 70, 50, 80, Some("yellow")),
        colored_box(100, 100, 120, 110, None),
    ];
    let tags = vec![
        tag_area(20, 12, 5, 5, true),
        tag_area(30, 12, 5, 5, false),
        tag_area(20, 72, 5, 5, true),
        tag_area(200, 200, 10, 10, true),
        tag_area(40, 14, 30, 50, true),
    ];
    let mut registry = StyleRegistry::new();
    let (pairs, taken) = region_roles(&boxes, &tags, &mut registry);
    assert_eq!(pairs, vec![(2, Some(4)), (3, None), (2, Some(2)), (0, None)]);
    assert_eq!(taken, vec![true, true, true, false, true]);
    assert_eq!(registry.registered_keys(), &["yellow".to_string(), "green".to_string()]);
}

#[test]
fn region_roles_continue_numbering_from_an_earlier_page() {
    let mut registry = StyleRegistry::new();
    let first = vec![colored_box(0, 0, 9, 9, Some("pink"))];
    let (pairs, _) = region_roles(&first, &[], &mut registry);
    assert_eq!(pairs, vec![(2, None)]);
    let second = vec![colored_box(0, 0, 9, 9, Some("cyan")), colored_box(0, 20, 9, 29, Some("pink"))];
    let tags = vec![tag_area(5, 5, 10, 10, false)];
    let (pairs, taken) = region_roles(&second, &tags, &mut registry);
    assert_eq!(pairs, vec![(3, None), (2, None)]);
    assert_eq!(taken, vec![true]);
}

#[test]
fn region_roles_need_a_shared_area_of_positive_size() {
    let boxes = vec![colored_box(10, 10, 19, 19, Some("yellow"))];
    // The box covers columns 10..=19; a tag starting at column 20 only touches it.
    let tags = vec![tag_area(20, 10, 5, 5, true), tag_area(19, 10, 5, 5, true)];
    let mut registry = StyleRegistry::new();
    let (pairs, taken) = region_roles(&boxes, &tags, &mut registry);
    assert_eq!(pairs, vec![(2, Some(1))]);
    assert_eq!(taken, vec![false, true]);
}

#[test]
fn merged_boxes_are_hulls_of_one_colour() {
    let boxes = vec![
        colored_box(0, 0, 10, 10, Some("yellow")),
        colored_box(15, 0, 30, 10, Some("yellow")),
        colored_box(5, 5, 12, 12, Some("green")),
    ];
    let merged = merge_close_boxes(boxes);
    assert_eq!(
        merged,
        vec![colored_box(0, 0, 30, 10, Some("yellow")), colored_box(5, 5, 12, 12, Some("green"))]
    );
}

#[test]
fn plain_file_names_are_judged_by_their_extension() {
    match document_kind("a.txt") {
        Err(DocRenderError::UnsupportedExtension(s)) => assert_eq!(s, ".txt"),
        other => panic!("unexpected {:?}", other),
    }
    assert!(matches!(document_kind("report.PDF"), Ok(_)));
    match document_kind("notes") {
        Err(DocRenderError::UnsupportedExtension(s)) => assert_eq!(s, "."),
        other => panic!("unexpected {:?}", other),
    }
    assert_eq!(page_prefix("a.b.docx"), "a_b");
}
