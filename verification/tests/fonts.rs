use handwrite_sim::fonts::{font_file_of, font_priority, is_font_extension, map_known_font, system_font_list, FontFile};

fn file(path: &str, name: &str, stem: &str) -> FontFile {
    FontFile { path: path.to_string(), file_name: name.to_string(), stem: stem.to_string() }
}

#[test]
fn known_fonts_get_friendly_names() {
    assert_eq!(map_known_font("msyh.ttc"), Some(("微软雅黑", "Microsoft YaHei")));
    assert_eq!(map_known_font("kaiti.ttf"), Some(("楷体", "KaiTi")));
    assert_eq!(map_known_font("arial.ttf"), Some(("Arial", "Arial")));
    assert_eq!(map_known_font("wqy-zenhei.ttc"), Some(("文泉驿正黑", "WenQuanYi Zen Hei")));
    assert_eq!(map_known_font("MSYH.TTC"), None);
    assert_eq!(map_known_font("unknown.ttf"), None);
}

#[test]
fn font_priority_ranks_common_chinese_fonts_first() {
    assert_eq!(font_priority("微软雅黑", "msyh.ttc"), 10);
    assert_eq!(font_priority("SimSun", "simsun.ttc"), 20);
    assert_eq!(font_priority("黑体", "simhei.ttf"), 30);
    assert_eq!(font_priority("楷体", "simkai.ttf"), 40);
    assert_eq!(font_priority("仿宋", "simfang.ttf"), 50);
    assert_eq!(font_priority("华文行楷", "stxingka.ttf"), 60);
    assert_eq!(font_priority("华文宋体", "stsong.ttf"), 20);
    assert_eq!(font_priority("STHupo", "sthupo.ttf"), 70);
    assert_eq!(font_priority("等线", "deng.ttf"), 80);
    assert_eq!(font_priority("DejaVuSans", "notosans.ttf"), 90);
    assert_eq!(font_priority("Arial Bold", "arialbd.ttf"), 150);
    assert_eq!(font_priority("DejaVuSans", "dejavusans.ttf"), 200);
}

#[test]
fn font_list_is_deduplicated_named_and_sorted() {
    let files = vec![
        file("/fonts/DejaVuSans.ttf", "DejaVuSans.ttf", "DejaVuSans"),
        file("/fonts/arial.ttf", "arial.ttf", "arial"),
        file("/fonts/MSYH.TTC", "MSYH.TTC", "MSYH"),
        file("/fonts/msyh.ttc", "msyh.ttc", "msyh"),
        file("/fonts/simkai.ttf", "simkai.ttf", "simkai"),
        file("/fonts/Arial.ttf", "Arial.ttf", "Arial"),
    ];
    let list = system_font_list(files);
    let names: Vec<&str> = list.iter().map(|f| f.name.as_str()).collect();
    // paths equal up to case are listed once (the first one found)
    assert_eq!(names, vec!["微软雅黑 (Microsoft YaHei)", "楷体 (KaiTi)", "Arial", "DejaVuSans"]);
    assert_eq!(list[0].path, "/fonts/MSYH.TTC");
    assert_eq!(list[0].family, "微软雅黑");
    assert_eq!(list[2].path, "/fonts/arial.ttf");
    assert_eq!(list[3].family, "DejaVuSans");
}

#[test]
fn font_extensions_in_any_case() {
    assert!(is_font_extension("ttf"));
    assert!(is_font_extension("OTF"));
    assert!(is_font_extension("TtC"));
    assert!(!is_font_extension("woff"));
    assert!(!is_font_extension(""));
    assert!(!is_font_extension("ttf "));
}

#[test]
fn plain_font_file_names() {
    let f = font_file_of("SimSun.ttc");
    assert_eq!(f.file_name, "SimSun.ttc");
    assert_eq!(f.stem, "SimSun");
    let g = font_file_of(".hidden");
    assert_eq!(g.file_name, ".hidden");
    assert_eq!(g.stem, ".hidden");
    let h = font_file_of("a.b.otf");
    assert_eq!(h.stem, "a.b");
}
