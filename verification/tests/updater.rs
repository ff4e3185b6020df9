use handwrite_sim::html::unescape_html;
use handwrite_sim::notes::{html_release_body_to_text, trim_release_notes_markdown};
use handwrite_sim::release::{
    build_updater_bat_content, parse_asset_links, parse_latest_entry_from_atom,
    select_platform_asset,
};
use handwrite_sim::versions::compare_versions;

/// Release asset naming of the machine the tests run on.
const PLATFORM_TOKEN: &str = "linux-x86_64";
const ON_WINDOWS: bool = false;

#[test]
fn test_version_compare() {
    assert_eq!(compare_versions("0.3.1", "0.3.1"), std::cmp::Ordering::Equal);
    assert_eq!(compare_versions("v0.3.1", "0.3.1"), std::cmp::Ordering::Equal);
    assert_eq!(compare_versions("0.4.0", "0.3.1"), std::cmp::Ordering::Greater);
    assert_eq!(compare_versions("0.3.1", "0.4.0"), std::cmp::Ordering::Less);
    assert_eq!(compare_versions("0.3.10", "0.3.2"), std::cmp::Ordering::Greater);
    assert_eq!(compare_versions("1.0.0", "0.9.9"), std::cmp::Ordering::Greater);
}

#[test]
fn test_unescape_html() {
    assert_eq!(unescape_html("a &amp; b"), "a & b");
    assert_eq!(unescape_html("&lt;h2&gt;x&lt;/h2&gt;"), "<h2>x</h2>");
    assert_eq!(unescape_html("&quot;q&quot; &#39;&#65;&#x42;"), "\"q\" 'AB");
    assert_eq!(unescape_html("无实体"), "无实体");
    assert_eq!(unescape_html("残缺 &amp 截断"), "残缺 &amp 截断");
}

#[test]
fn test_trim_release_notes_markdown() {
    let md = "## 更新内容\n### Added\n- 新功能 A\n- 新功能 B\n\n## 下载说明（固定样板）\n\n| 文件名 |\n|---|\n\n## 为什么没有字体？\n版权说明";
    let trimmed = trim_release_notes_markdown(md);
    assert!(trimmed.contains("## 更新内容"));
    assert!(trimmed.contains("### Added"));
    assert!(trimmed.contains("新功能 B"));
    assert!(!trimmed.contains("下载说明"));
    assert!(!trimmed.contains("字体"));

    assert_eq!(trim_release_notes_markdown("暂无更新说明。"), "暂无更新说明。");
}

#[test]
fn test_html_release_body_to_text() {
    let html = "<h2>更新内容</h2>\n<h3>Added</h3>\n<ul>\n<li>\n<p><strong>深色模式</strong>：支持<code>三态切换</code>。</p>\n<ul>\n<li>风格对齐墨绿国风暗色调。</li>\n</ul>\n</li>\n</ul>\n<h2>下载说明（固定样板）</h2>\n<table><tr><td>表格内容</td></tr></table>\n<h2>为什么没有字体？</h2>\n<p>版权说明</p>";
    let text = html_release_body_to_text(html);
    assert!(text.starts_with("## 更新内容"));
    assert!(text.contains("### Added"));
    assert!(text.contains("- 深色模式：支持`三态切换`。"));
    assert!(text.contains("- 风格对齐墨绿国风暗色调。"));
    assert!(!text.contains("下载说明"));
    assert!(!text.contains("表格内容"));
    assert!(!text.contains("版权说明"));
}

#[test]
fn test_parse_latest_entry_from_atom() {
    let feed = r#"<?xml version="1.0" encoding="UTF-8"?>
<feed xmlns="http://www.w3.org/2005/Atom">
  <title>Release notes from Handwriting-sim-rs</title>
  <entry>
    <id>tag:github.com,2008:Repository/1/v0.3.3</id>
    <link rel="alternate" type="text/html" href="https://github.com/bamboostrip/Handwriting-sim-rs/releases/tag/v0.3.3"/>
    <title>v0.3.3</title>
    <content type="html">&lt;h2&gt;更新内容&lt;/h2&gt;&lt;ul&gt;&lt;li&gt;新功能&lt;/li&gt;&lt;/ul&gt;</content>
  </entry>
  <entry>
    <id>tag:github.com,2008:Repository/1/v0.3.2</id>
    <link rel="alternate" type="text/html" href="https://github.com/bamboostrip/Handwriting-sim-rs/releases/tag/v0.3.2"/>
    <title>v0.3.2</title>
    <content type="html">&lt;h2&gt;旧版本&lt;/h2&gt;</content>
  </entry>
</feed>"#;
    let (tag, link, content) = parse_latest_entry_from_atom(feed).expect("应解析出条目");
    assert_eq!(tag, "v0.3.3");
    assert_eq!(link, "https://github.com/bamboostrip/Handwriting-sim-rs/releases/tag/v0.3.3");
    assert_eq!(
        content,
        "&lt;h2&gt;更新内容&lt;/h2&gt;&lt;ul&gt;&lt;li&gt;新功能&lt;/li&gt;&lt;/ul&gt;"
    );
    assert_eq!(unescape_html(&content), "<h2>更新内容</h2><ul><li>新功能</li></ul>");
}

#[test]
fn test_parse_asset_links() {
    let html = r#"<ul>
  <li><a href="/bamboostrip/Handwriting-sim-rs/releases/download/v0.3.3/handwrite-sim-linux-x86_64.zip"><span class="text-bold">handwrite-sim-linux-x86_64.zip</span></a><span>sha256:6b04…</span><span>28.5 MB</span></li>
  <li><a href="/bamboostrip/Handwriting-sim-rs/releases/download/v0.3.3/handwrite-sim-windows-x86_64.zip"><span class="text-bold">handwrite-sim-windows-x86_64.zip</span></a></li>
  <li><a href="/bamboostrip/Handwriting-sim-rs/releases/download/v0.3.3/handwrite-sim-windows-x86_64-webview2.zip"><span class="text-bold">handwrite-sim-windows-x86_64-webview2.zip</span></a></li>
  <li><a href="/bamboostrip/Handwriting-sim-rs/archive/refs/tags/v0.3.3.zip">Source code (zip)</a></li>
  <li><a href="/bamboostrip/Handwriting-sim-rs/archive/refs/tags/v0.3.3.tar.gz">Source code (tar.gz)</a></li>
</ul>"#;
    let assets = parse_asset_links(html);
    assert_eq!(assets.len(), 3);
    assert!(assets.iter().any(|(n, u)| n == "handwrite-sim-windows-x86_64.zip"
        && u == "https://github.com/bamboostrip/Handwriting-sim-rs/releases/download/v0.3.3/handwrite-sim-windows-x86_64.zip"));
    assert!(!assets.iter().any(|(_, u)| u.contains("/archive/")));
}

#[test]
fn test_select_platform_asset() {
    let make = |names: &[&str]| -> Vec<(String, String, u64)> {
        names
            .iter()
            .map(|n| (n.to_string(), format!("https://example.com/{n}"), 1))
            .collect()
    };

    let assets = make(&[
        "handwrite-sim-windows-x86_64-webview2.zip",
        "handwrite-sim-windows-x86_64.zip",
        "handwrite-sim-linux-x86_64.zip",
    ]);
    let token = if PLATFORM_TOKEN.is_empty() { "windows-x86_64" } else { PLATFORM_TOKEN };
    let assets: Vec<_> = assets
        .into_iter()
        .map(|(n, u, s)| (n.replace("windows-x86_64", token), u, s))
        .collect();
    let (name, _, _) =
        select_platform_asset(&assets, PLATFORM_TOKEN, ON_WINDOWS).expect("应选中轻量包");
    assert_eq!(name, format!("handwrite-sim-{token}.zip"));

    let assets = make(&[
        &format!("handwrite-sim-{token}.exe"),
        &format!("handwrite-sim-{token}.zip"),
    ]);
    let (name, _, _) =
        select_platform_asset(&assets, PLATFORM_TOKEN, ON_WINDOWS).expect("应选中 exe");
    assert_eq!(name, format!("handwrite-sim-{token}.exe"));

    let assets = make(&[&format!("handwrite-sim-{token}-webview2.zip")]);
    let (name, _, _) =
        select_platform_asset(&assets, PLATFORM_TOKEN, ON_WINDOWS).expect("应兜底选中 webview2 包");
    assert!(name.contains("webview2"));

    // on Windows the generic handwrite-sim.exe can be chosen
    let assets = make(&["handwrite-sim.exe"]);
    let (name, _, _) =
        select_platform_asset(&assets, "windows-x86_64", true).expect("应选中通用 exe");
    assert_eq!(name, "handwrite-sim.exe");

    let assets = make(&["handwrite-sim-otherplatform.zip"]);
    if !PLATFORM_TOKEN.is_empty() {
        assert!(select_platform_asset(&assets, PLATFORM_TOKEN, ON_WINDOWS).is_none());
    }
}

#[test]
fn test_updater_bat_uses_windowless_sleep() {
    let tmp = "/tmp";
    let content = build_updater_bat_content(
        &format!("{tmp}/new-handwrite-sim.exe"),
        &format!("{tmp}/handwrite-sim.exe"),
        &format!("{tmp}/update-handwrite-sim.exe"),
        None,
        &format!("{tmp}/handwritesim_sleep_1234.vbs"),
        None,
    );
    assert!(
        !content.contains("ping "),
        "批处理不得用 ping 延时（会弹终端窗口），实际内容：\n{content}"
    );
    assert!(
        content.contains("wscript //B //Nologo"),
        "批处理延时必须走 wscript 无窗口脚本，实际内容：\n{content}"
    );
}

#[test]
fn updater_bat_gives_up_after_ten_failed_copies() {
    let content = build_updater_bat_content("new.exe", "cur.exe", "dl.exe", None, "s.vbs", None);
    assert!(content.contains("set /a tries+=1\r\nif %tries% geq 10 goto copyfailed\r\n"));
}

#[test]
fn versions_compare_as_padded_lists() {
    assert_eq!(compare_versions("1.0", "1.0.0"), std::cmp::Ordering::Equal);
    assert_eq!(compare_versions("V2", "1.9"), std::cmp::Ordering::Greater);
    assert_eq!(compare_versions("1.9", "V2"), std::cmp::Ordering::Less);
}
