use handwrite_sim::docx::{
    detect_doc_font_family, import_document, parse_document, parse_style_events, parse_styles,
    DocParagraph,
};
use handwrite_sim::models::Align;
use handwrite_sim::runs::{
    doc_font_size_half_pt, style_chain_first_line_chars, style_chain_size_half_pt, ParaFmt, StyleDef,
};
use handwrite_sim::styles::{StyleRegistry, TextRun, TextRunStyle};
use handwrite_sim::xmlread::{attr_val, local_part, read_xml_events, XmlAttr, XmlEvent, XmlTag};

const HEAD: &str = r#"<?xml version="1.0" encoding="UTF-8" standalone="yes"?><w:document xmlns:w="http://schemas.openxmlformats.org/wordprocessingml/2006/main"><w:body>"#;
const TAIL: &str = "</w:body></w:document>";

fn body(inner: &str) -> String {
    format!("{HEAD}{inner}{TAIL}")
}

#[test]
fn skips_paragraphs_inside_tables() {
    let document_xml = r#"<?xml version="1.0" encoding="UTF-8" standalone="yes"?><w:document xmlns:w="http://schemas.openxmlformats.org/wordprocessingml/2006/main"><w:body><w:p><w:r><w:t>顶层段落</w:t></w:r></w:p><w:tbl><w:tr><w:tc><w:p><w:r><w:t>表格内段落</w:t></w:r></w:p></w:tc></w:tr></w:tbl></w:body></w:document>"#;
    let paras = import_document(document_xml, &None).unwrap().0;
    assert_eq!(paras.len(), 1);
    assert_eq!(paras[0].text, "顶层段落");
}
#[test]
fn hyperlink_runs_included_in_text() {
    let document_xml = r#"<?xml version="1.0" encoding="UTF-8" standalone="yes"?><w:document xmlns:w="http://schemas.openxmlformats.org/wordprocessingml/2006/main"><w:body><w:p><w:r><w:t>前</w:t></w:r><w:hyperlink r:id="rId1" xmlns:r="http://schemas.openxmlformats.org/officeDocument/2006/relationships"><w:r><w:t>链接</w:t></w:r></w:hyperlink><w:r><w:t>后</w:t></w:r></w:p></w:body></w:document>"#;
    let paras = import_document(document_xml, &None).unwrap().0;
    assert_eq!(paras.len(), 1);
    assert_eq!(paras[0].text, "前链接后");
}
#[test]
fn test_docx_with_highlights() {
    let document_xml = r#"<?xml version="1.0" encoding="UTF-8" standalone="yes"?><w:document xmlns:w="http://schemas.openxmlformats.org/wordprocessingml/2006/main"><w:body><w:p><w:r><w:rPr><w:highlight w:val="yellow"/></w:rPr><w:t>黄</w:t></w:r><w:r><w:rPr><w:highlight w:val="green"/></w:rPr><w:t>绿</w:t></w:r><w:r><w:rPr><w:highlight w:val="cyan"/></w:rPr><w:t>青</w:t></w:r><w:r><w:rPr><w:highlight w:val="magenta"/></w:rPr><w:t>品红</w:t></w:r><w:r><w:rPr><w:highlight w:val="lightGray"/></w:rPr><w:t>印刷灰</w:t></w:r></w:p></w:body></w:document>"#;
    let paras = import_document(document_xml, &None).unwrap().0;
    assert_eq!(paras.len(), 1);
    assert_eq!(paras[0].runs.len(), 5);
    assert_eq!(paras[0].runs[0].text, "黄");
    assert_eq!(paras[0].runs[0].style.role_id, 2);
    assert_eq!(paras[0].runs[0].style.highlight.as_deref(), Some("yellow"));
    assert_eq!(paras[0].runs[1].text, "绿");
    assert_eq!(paras[0].runs[1].style.role_id, 3);
    assert_eq!(paras[0].runs[1].style.highlight.as_deref(), Some("green"));
    assert_eq!(paras[0].runs[2].text, "青");
    assert_eq!(paras[0].runs[2].style.role_id, 4);
    assert_eq!(paras[0].runs[2].style.highlight.as_deref(), Some("cyan"));
    assert_eq!(paras[0].runs[3].text, "品红");
    assert_eq!(paras[0].runs[3].style.role_id, 5);
    assert_eq!(paras[0].runs[3].style.highlight.as_deref(), Some("magenta"));
    assert_eq!(paras[0].runs[4].text, "印刷灰");
    assert_eq!(paras[0].runs[4].style.role_id, 1);
    assert_eq!(paras[0].runs[4].style.highlight.as_deref(), Some("lightGray"));
    assert!(paras[0].runs[4].style.printed);
}
#[test]
fn test_docx_dynamic_color_allocation() {
    let document_xml = r#"<?xml version="1.0" encoding="UTF-8" standalone="yes"?><w:document xmlns:w="http://schemas.openxmlformats.org/wordprocessingml/2006/main"><w:body><w:p><w:r><w:rPr><w:highlight w:val="pink"/></w:rPr><w:t>粉色段落</w:t></w:r></w:p><w:p><w:r><w:rPr><w:highlight w:val="darkBlue"/></w:rPr><w:t>深蓝段落</w:t></w:r></w:p><w:p><w:r><w:rPr><w:highlight w:val="pink"/></w:rPr><w:t>再次粉色</w:t></w:r></w:p></w:body></w:document>"#;
    let paras = import_document(document_xml, &None).unwrap().0;
    assert_eq!(paras.len(), 3);

    assert_eq!(paras[0].runs.len(), 1);
    assert_eq!(paras[0].runs[0].text, "粉色段落");
    assert_eq!(paras[0].runs[0].style.role_id, 2);
    assert_eq!(paras[0].runs[0].style.highlight.as_deref(), Some("pink"));
    assert!(!paras[0].runs[0].style.printed);

    assert_eq!(paras[1].runs.len(), 1);
    assert_eq!(paras[1].runs[0].text, "深蓝段落");
    assert_eq!(paras[1].runs[0].style.role_id, 3);
    assert_eq!(paras[1].runs[0].style.highlight.as_deref(), Some("darkBlue"));
    assert!(!paras[1].runs[0].style.printed);

    assert_eq!(paras[2].runs.len(), 1);
    assert_eq!(paras[2].runs[0].text, "再次粉色");
    assert_eq!(paras[2].runs[0].style.role_id, 2);
    assert_eq!(paras[2].runs[0].style.highlight.as_deref(), Some("pink"));
    assert!(!paras[2].runs[0].style.printed);
}
#[test]
fn run_colour_sets_fill() {
    let document_xml = r#"<?xml version="1.0" encoding="UTF-8" standalone="yes"?><w:document xmlns:w="http://schemas.openxmlformats.org/wordprocessingml/2006/main"><w:body><w:p><w:r><w:rPr><w:color w:val="FF0000"/><w:sz w:val="48"/></w:rPr><w:t>红色大字</w:t></w:r></w:p></w:body></w:document>"#;
    let paras = import_document(document_xml, &None).unwrap().0;
    assert_eq!(paras.len(), 1);
    assert_eq!(paras[0].runs.len(), 1);
    assert_eq!(paras[0].runs[0].text, "红色大字");
    assert_eq!(paras[0].runs[0].style.fill, Some([255, 0, 0]));
}
#[test]
fn test_docx_with_syntax_tags() {
    let document_xml = r#"<?xml version="1.0" encoding="UTF-8" standalone="yes"?><w:document xmlns:w="http://schemas.openxmlformats.org/wordprocessingml/2006/main"><w:body><w:p><w:r><w:t>正文{{手写:已批准}}后续</w:t></w:r></w:p></w:body></w:document>"#;
    let paras = import_document(document_xml, &None).unwrap().0;
    assert_eq!(paras.len(), 1);
    assert_eq!(paras[0].text, "正文已批准后续");
    assert_eq!(paras[0].runs.len(), 3);
    assert_eq!(paras[0].runs[0].text, "正文");
    assert_eq!(paras[0].runs[0].style.role_id, 1);
    assert!(paras[0].runs[0].style.printed);
    assert_eq!(paras[0].runs[1].text, "已批准");
    assert_eq!(paras[0].runs[1].style.role_id, 2);
    assert!(!paras[0].runs[1].style.printed);
    assert_eq!(paras[0].runs[2].text, "后续");
    assert_eq!(paras[0].runs[2].style.role_id, 1);
    assert!(paras[0].runs[2].style.printed);
}
#[test]
fn test_docx_with_extended_syntax_tags() {
    let document_xml = r#"<?xml version="1.0" encoding="UTF-8" standalone="yes"?><w:document xmlns:w="http://schemas.openxmlformats.org/wordprocessingml/2006/main"><w:body><w:p><w:r><w:t>{{手写2:老师批注}}{{打印:注意事项}}{{1:学生A}}{{2:学生B}}{{默认手写}}</w:t></w:r></w:p></w:body></w:document>"#;
    let paras = import_document(document_xml, &None).unwrap().0;
    assert_eq!(paras.len(), 1);
    assert_eq!(paras[0].runs.len(), 5);

    assert_eq!(paras[0].runs[0].text, "老师批注");
    assert_eq!(paras[0].runs[0].style.role_id, 3);
    assert!(!paras[0].runs[0].style.printed);

    assert_eq!(paras[0].runs[1].text, "注意事项");
    assert_eq!(paras[0].runs[1].style.role_id, 1);
    assert!(paras[0].runs[1].style.printed);

    assert_eq!(paras[0].runs[2].text, "学生A");
    assert_eq!(paras[0].runs[2].style.role_id, 1);
    assert!(!paras[0].runs[2].style.printed);

    assert_eq!(paras[0].runs[3].text, "学生B");
    assert_eq!(paras[0].runs[3].style.role_id, 2);
    assert!(!paras[0].runs[3].style.printed);

    assert_eq!(paras[0].runs[4].text, "默认手写");
    assert_eq!(paras[0].runs[4].style.role_id, 2);
    assert!(!paras[0].runs[4].style.printed);
}
#[test]
fn test_docx_no_highlights_is_full_handwriting() {
    let document_xml = r#"<?xml version="1.0" encoding="UTF-8" standalone="yes"?><w:document xmlns:w="http://schemas.openxmlformats.org/wordprocessingml/2006/main"><w:body><w:p><w:r><w:t>第一段纯手写</w:t></w:r></w:p><w:p><w:r><w:t>第二段纯手写</w:t></w:r></w:p></w:body></w:document>"#;
    let paras = import_document(document_xml, &None).unwrap().0;
    assert_eq!(paras.len(), 2);
    for p in &paras {
        for r in &p.runs {
            assert_eq!(r.style.role_id, 0);
            assert!(!r.style.printed);
        }
    }
}
#[test]
fn test_docx_printed_tag_survives_full_handwriting_mode() {
    let document_xml = r#"<?xml version="1.0" encoding="UTF-8" standalone="yes"?><w:document xmlns:w="http://schemas.openxmlformats.org/wordprocessingml/2006/main"><w:body><w:p><w:r><w:t>{{打印:标题}}正文手写</w:t></w:r></w:p></w:body></w:document>"#;
    let paras = import_document(document_xml, &None).unwrap().0;
    assert_eq!(paras.len(), 1);
    assert_eq!(paras[0].runs.len(), 2);
    assert_eq!(paras[0].runs[0].text, "标题");
    assert_eq!(paras[0].runs[0].style.role_id, 1);
    assert!(paras[0].runs[0].style.printed);
    assert_eq!(paras[0].runs[1].text, "正文手写");
    assert_eq!(paras[0].runs[1].style.role_id, 0);
    assert!(!paras[0].runs[1].style.printed);
}
#[test]
fn test_docx_nested_table_paragraphs_do_not_leak_into_body() {
    let document_xml = r#"<?xml version="1.0" encoding="UTF-8" standalone="yes"?><w:document xmlns:w="http://schemas.openxmlformats.org/wordprocessingml/2006/main"><w:body><w:p><w:r><w:t>正文段落</w:t></w:r></w:p><w:tbl><w:tr><w:tc><w:tbl><w:tr><w:tc><w:p><w:r><w:t>内层表格</w:t></w:r></w:p></w:tc></w:tr></w:tbl><w:p><w:r><w:t>外层表格段落</w:t></w:r></w:p></w:tc></w:tr></w:tbl></w:body></w:document>"#;
    let paras = import_document(document_xml, &None).unwrap().0;
    assert_eq!(paras.len(), 1, "paragraphs of tables, nested ones too, stay out of the body: {paras:?}");
    assert_eq!(paras[0].runs[0].text, "正文段落");
}
#[test]
fn test_docx_textbox_content_is_skipped() {
    let document_xml = r#"<?xml version="1.0" encoding="UTF-8" standalone="yes"?><w:document xmlns:w="http://schemas.openxmlformats.org/wordprocessingml/2006/main"><w:body><w:p><w:r><w:t>前文</w:t></w:r><w:r><w:drawing><wps:txbx><w:txbxContent><w:p><w:r><w:t>文本框内容</w:t></w:r></w:p></w:txbxContent></wps:txbx></w:drawing></w:r><w:r><w:t>后文</w:t></w:r></w:p></w:body></w:document>"#;
    let paras = import_document(document_xml, &None).unwrap().0;
    assert_eq!(paras.len(), 1, "text box paragraphs stay out of the body: {paras:?}");
    let text: String = paras[0].runs.iter().map(|r| r.text.as_str()).collect();
    assert_eq!(text, "前文后文", "text box text stays out, the outer paragraph keeps its text");
}
#[test]
fn test_docx_with_highlights_converts_unmarked_to_printed() {
    let document_xml = r#"<?xml version="1.0" encoding="UTF-8" standalone="yes"?><w:document xmlns:w="http://schemas.openxmlformats.org/wordprocessingml/2006/main"><w:body><w:p><w:r><w:t>未高亮模板前缀</w:t></w:r><w:r><w:rPr><w:highlight w:val="yellow"/></w:rPr><w:t>黄色高亮填空</w:t></w:r><w:r><w:t>未高亮模板后缀</w:t></w:r></w:p></w:body></w:document>"#;
    let paras = import_document(document_xml, &None).unwrap().0;
    assert_eq!(paras.len(), 1);
    assert_eq!(paras[0].runs.len(), 3);

    assert_eq!(paras[0].runs[0].text, "未高亮模板前缀");
    assert_eq!(paras[0].runs[0].style.role_id, 1);
    assert!(paras[0].runs[0].style.printed);

    assert_eq!(paras[0].runs[1].text, "黄色高亮填空");
    assert_eq!(paras[0].runs[1].style.role_id, 2);
    assert_eq!(paras[0].runs[1].style.highlight.as_deref(), Some("yellow"));
    assert!(!paras[0].runs[1].style.printed);

    assert_eq!(paras[0].runs[2].text, "未高亮模板后缀");
    assert_eq!(paras[0].runs[2].style.role_id, 1);
    assert!(paras[0].runs[2].style.printed);
}
#[test]
fn test_docx_rfonts_extraction() {
    let document_xml = r#"<?xml version="1.0" encoding="UTF-8" standalone="yes"?><w:document xmlns:w="http://schemas.openxmlformats.org/wordprocessingml/2006/main"><w:body><w:p><w:r><w:rPr><w:rFonts w:eastAsia="仿宋_GB2312" w:ascii="Calibri"/></w:rPr><w:t>字体测试</w:t></w:r></w:p></w:body></w:document>"#;
    let paras = import_document(document_xml, &None).unwrap().0;
    assert_eq!(paras.len(), 1);
    assert_eq!(paras[0].runs[0].style.font_family.as_deref(), Some("仿宋_GB2312"));
    assert_eq!(detect_doc_font_family(&paras).as_deref(), Some("仿宋_GB2312"));
}
#[test]
fn test_docx_multi_font_family_extraction() {
    let document_xml = r#"<?xml version="1.0" encoding="UTF-8" standalone="yes"?><w:document xmlns:w="http://schemas.openxmlformats.org/wordprocessingml/2006/main"><w:body><w:p><w:r><w:rPr><w:rFonts w:eastAsia="黑体"/></w:rPr><w:t>黑体标题</w:t></w:r><w:r><w:rPr><w:rFonts w:eastAsia="宋体"/></w:rPr><w:t>宋体副标题</w:t></w:r></w:p><w:p><w:r><w:rPr><w:rFonts w:eastAsia="仿宋_GB2312"/></w:rPr><w:t>仿宋正文</w:t></w:r></w:p></w:body></w:document>"#;
    let paras = import_document(document_xml, &None).unwrap().0;
    assert_eq!(paras.len(), 2);
    assert_eq!(paras[0].runs.len(), 2);
    assert_eq!(paras[0].runs[0].text, "黑体标题");
    assert_eq!(paras[0].runs[0].style.font_family.as_deref(), Some("黑体"));
    assert_eq!(paras[0].runs[1].text, "宋体副标题");
    assert_eq!(paras[0].runs[1].style.font_family.as_deref(), Some("宋体"));

    assert_eq!(paras[1].runs.len(), 1);
    assert_eq!(paras[1].runs[0].text, "仿宋正文");
    assert_eq!(paras[1].runs[0].style.font_family.as_deref(), Some("仿宋_GB2312"));
}

#[test]
fn paragraphs_keep_alignment_and_skip_blank_ones() {
    let xml = body(&[
        r#"<w:p><w:pPr><w:jc w:val="center"/><w:ind w:firstLineChars="200"/></w:pPr><w:r><w:t>第一段居中</w:t></w:r></w:p>"#,
        r#"<w:p><w:pPr><w:jc w:val="right"/></w:pPr><w:r><w:t>第二段右对齐</w:t></w:r></w:p>"#,
        r#"<w:p><w:pPr><w:jc w:val="both"/></w:pPr><w:r><w:t>第三段默认</w:t></w:r></w:p>"#,
        r#"<w:p><w:r><w:t xml:space="preserve">   </w:t></w:r></w:p>"#,
    ]
    .join(""));
    let paras = import_document(&xml, &None).unwrap().0;
    assert_eq!(paras.len(), 3);
    assert_eq!(paras[0].text, "第一段居中");
    assert_eq!(paras[0].align, Align::Center);
    assert_eq!(paras[0].fmt.first_line_chars, Some(200));
    assert_eq!(paras[1].align, Align::Right);
    assert_eq!(paras[1].fmt.first_line_chars, None);
    assert_eq!(paras[2].text, "第三段默认");
    assert_eq!(paras[2].align, Align::Left);
}

#[test]
fn paragraph_text_is_trimmed() {
    let xml = body(r#"<w:p><w:r><w:t xml:space="preserve">  首尾带空格  </w:t></w:r></w:p>"#);
    let paras = import_document(&xml, &None).unwrap().0;
    assert_eq!(paras.len(), 1);
    assert_eq!(paras[0].text, "首尾带空格");
    assert_eq!(paras[0].runs[0].text, "首尾带空格");
}

#[test]
fn first_line_twips_and_run_size_are_read() {
    let xml = body(r#"<w:p><w:pPr><w:ind w:firstLine="480"/></w:pPr><w:r><w:rPr><w:sz w:val="48"/></w:rPr><w:t>run</w:t></w:r></w:p>"#);
    let paras = import_document(&xml, &None).unwrap().0;
    assert_eq!(paras[0].fmt.first_line_twips, Some(480));
    assert_eq!(paras[0].fmt.run_sz_half_pt, Some(48));
}

#[test]
fn tabs_and_breaks_become_characters() {
    let xml = body(r#"<w:p><w:r><w:t>a</w:t><w:tab/><w:t>b</w:t><w:br/><w:t>c</w:t></w:r></w:p>"#);
    let paras = import_document(&xml, &None).unwrap().0;
    assert_eq!(paras[0].text, "a\tb\nc");
}

#[test]
fn malformed_body_is_reported() {
    let xml = body("<w:p><w:r><w:t>x</w:r></w:p>");
    let err = import_document(&xml, &None).unwrap_err();
    assert!(err.starts_with("解析 document.xml 失败："), "{err}");
}

#[test]
fn style_sheet_chain_gives_indent_and_size() {
    let styles = r#"<?xml version="1.0" encoding="UTF-8" standalone="yes"?><w:styles xmlns:w="http://schemas.openxmlformats.org/wordprocessingml/2006/main"><w:docDefaults><w:rPrDefault><w:rPr><w:sz w:val="36"/></w:rPr></w:rPrDefault></w:docDefaults><w:style w:type="paragraph" w:styleId="MyPara"><w:name w:val="My Para"/><w:basedOn w:val="BasePara"/></w:style><w:style w:type="paragraph" w:styleId="BasePara"><w:name w:val="Base Para"/><w:pPr><w:ind w:firstLineChars="200"/></w:pPr><w:rPr><w:sz w:val="48"/></w:rPr></w:style></w:styles>"#;
    let (defs, defaults) = parse_styles(&Some(styles.to_string()));
    assert_eq!(defaults, Some(36));
    assert_eq!(defs.len(), 2);
    assert_eq!(defs[0].style_id, "MyPara");
    assert_eq!(defs[0].based_on.as_deref(), Some("BasePara"));
    assert_eq!(defs[1].first_line_chars, Some(200));
    assert_eq!(defs[1].sz_half_pt, Some(48));
    assert_eq!(style_chain_first_line_chars("MyPara", &defs), Some(200));
    assert_eq!(style_chain_size_half_pt("MyPara", &defs), Some(48));

    let (none, no_default) = parse_styles(&None);
    assert!(none.is_empty());
    assert_eq!(no_default, None);
}

#[test]
fn style_events_read_directly() {
    let tag = |name: &str, attrs: &[(&str, &str)]| XmlTag {
        name: name.to_string(),
        attrs: attrs
            .iter()
            .map(|(k, v)| Some(XmlAttr { key: k.to_string(), value: Some(v.to_string()) }))
            .collect(),
    };
    let events = vec![
        XmlEvent::Start(tag("w:style", &[("w:styleId", "Title")])),
        XmlEvent::Start(tag("w:pPr", &[])),
        XmlEvent::Empty(tag("w:jc", &[("w:val", "center")])),
        XmlEvent::End("w:pPr".to_string()),
        XmlEvent::End("w:style".to_string()),
        XmlEvent::Eof,
        XmlEvent::Start(tag("w:style", &[("w:styleId", "Ignored")])),
        XmlEvent::End("w:style".to_string()),
    ];
    let (defs, defaults) = parse_style_events(&events);
    assert_eq!(defs.len(), 1);
    assert_eq!(defs[0].style_id, "Title");
    assert_eq!(defs[0].jc.as_deref(), Some("center"));
    assert_eq!(defaults, None);
}

#[test]
fn attributes_are_found_by_local_name() {
    let t = XmlTag {
        name: "w:rFonts".to_string(),
        attrs: vec![
            None,
            Some(XmlAttr { key: "w:ascii".to_string(), value: Some("Calibri".to_string()) }),
            Some(XmlAttr { key: "w:eastAsia".to_string(), value: None }),
        ],
    };
    assert_eq!(attr_val(&t, "ascii").as_deref(), Some("Calibri"));
    assert_eq!(attr_val(&t, "eastAsia"), None);
    assert_eq!(attr_val(&t, "hAnsi"), None);
    assert_eq!(local_part("w:pPr").into_iter().collect::<String>(), "pPr");
    assert_eq!(local_part("body").into_iter().collect::<String>(), "body");
}

#[test]
fn reader_events_end_with_eof() {
    let events = read_xml_events("<a x='1'><b/>t</a>", false);
    assert!(matches!(events.last(), Some(XmlEvent::Eof)));
    assert!(matches!(&events[0], XmlEvent::Start(t) if t.name == "a"));
    assert!(matches!(&events[1], XmlEvent::Empty(t) if t.name == "b"));
    assert!(matches!(&events[2], XmlEvent::Text(s) if s == "t"));
    assert!(matches!(&events[3], XmlEvent::End(n) if n == "a"));
}

#[test]
fn paragraph_font_is_the_run_font_or_its_own() {
    let xml = body(r#"<w:p><w:pPr><w:rFonts w:cs="楷体"/></w:pPr><w:r><w:t>段落字体</w:t></w:r></w:p>"#);
    let paras = import_document(&xml, &None).unwrap().0;
    assert_eq!(paras[0].font_family.as_deref(), Some("楷体"));
    assert_eq!(paras[0].runs[0].style.font_family.as_deref(), Some("楷体"));
}

#[test]
fn colour_roles_are_registered() {
    let mut registry = StyleRegistry::new();
    let xml = body(r#"<w:p><w:r><w:rPr><w:color w:val="00FF00"/></w:rPr><w:t>绿字</w:t></w:r><w:r><w:rPr><w:color w:val="000000"/></w:rPr><w:t>黑字</w:t></w:r></w:p>"#);
    let paras = parse_document(&xml, &mut registry).unwrap();
    assert_eq!(paras.len(), 1);
    assert_eq!(paras[0].runs[0].style.fill, Some([0, 255, 0]));
    assert_eq!(paras[0].runs[0].style.role_id, 2);
    assert_eq!(paras[0].runs[1].style.fill, Some([0, 0, 0]));
    assert_eq!(paras[0].runs[1].style.role_id, 0);
    assert_eq!(registry.registered_keys(), &["color:00ff00".to_string()]);
}

#[test]
fn main_font_counts_printed_text() {
    let run = |text: &str, font: &str, highlight: Option<&str>| TextRun {
        text: text.to_string(),
        style: TextRunStyle {
            font_family: Some(font.to_string()),
            highlight: highlight.map(|h| h.to_string()),
            ..TextRunStyle::default()
        },
    };
    let para = |runs: Vec<TextRun>| DocParagraph {
        text: runs.iter().map(|r| r.text.as_str()).collect(),
        align: Align::Left,
        font_family: None,
        runs,
        fmt: Default::default(),
    };
    let paras = vec![
        para(vec![run("短", "黑体", None), run("很长很长的高亮", "楷体", Some("yellow"))]),
        para(vec![run("正文正文", " 宋体 ", None), run("又", "黑体", None)]),
    ];
    assert_eq!(detect_doc_font_family(&paras).as_deref(), Some("宋体"));

    let tie = vec![para(vec![run("ab", "A", None), run("cd", "B", None)])];
    assert_eq!(detect_doc_font_family(&tie).as_deref(), Some("A"));

    let only_highlighted = vec![para(vec![run("x", "楷体", Some("yellow"))])];
    assert_eq!(detect_doc_font_family(&only_highlighted).as_deref(), Some("楷体"));

    let none: Vec<DocParagraph> = vec![para(vec![TextRun::from_text("无字体")])];
    assert_eq!(detect_doc_font_family(&none), None);
}

fn style(id: &str, based_on: Option<&str>, sz: Option<u32>) -> StyleDef {
    StyleDef {
        style_id: id.to_string(),
        based_on: based_on.map(|s| s.to_string()),
        jc: None,
        first_line_chars: None,
        first_line_twips: None,
        sz_half_pt: sz,
    }
}

fn fmt(style_id: Option<&str>, run_sz: Option<u32>) -> ParaFmt {
    ParaFmt {
        style_id: style_id.map(|s| s.to_string()),
        jc: None,
        first_line_chars: None,
        first_line_twips: None,
        run_sz_half_pt: run_sz,
        font_family: None,
    }
}

#[test]
fn document_font_size_falls_back_in_order() {
    let styles = vec![style("Normal", None, Some(21)), style("Body", Some("Normal"), Some(28))];
    // the run's own size first
    assert_eq!(doc_font_size_half_pt(&fmt(Some("Body"), Some(32)), &styles, Some(20)), 32);
    // then the paragraph style chain
    assert_eq!(doc_font_size_half_pt(&fmt(Some("Body"), None), &styles, Some(20)), 28);
    // then Normal
    assert_eq!(doc_font_size_half_pt(&fmt(None, Some(0)), &styles, Some(20)), 21);
    // then the document default, then twelve points
    assert_eq!(doc_font_size_half_pt(&fmt(None, None), &[], Some(20)), 20);
    assert_eq!(doc_font_size_half_pt(&fmt(None, None), &[], None), 24);
}
