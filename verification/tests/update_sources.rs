use handwrite_sim::updates::{
    attach_assets, latest_is_current, next_update_source, update_from_api, update_from_api_body,
    update_from_feed, update_from_redirect, UpdateSource,
};

const REPO: &str = "https://github.com/owner/app";

#[test]
fn api_record_with_assets() {
    let assets = vec![
        ("app-v1.3.0-linux-x86_64.zip".to_string(), "https://dl/linux.zip".to_string(), 2048u64),
        ("".to_string(), "https://dl/unnamed".to_string(), 1),
        ("app-v1.3.0-linux-x86_64.exe".to_string(), "".to_string(), 3),
        ("app-v1.3.0-windows-x86_64.exe".to_string(), "https://dl/win.exe".to_string(), 4096),
    ];
    let info = update_from_api(
        "v1.3.0",
        Some("Release 1.3"),
        Some("## 更新\n- 修复\n\n## 校验\nsha"),
        Some("https://github.com/owner/app/releases/tag/v1.3.0"),
        &assets,
        "1.2.9",
        REPO,
        "linux-x86_64",
        false,
    );
    assert_eq!(info.version, "1.3.0");
    assert_eq!(info.tag_name, "v1.3.0");
    assert_eq!(info.title, "Release 1.3");
    assert_eq!(info.asset_name, "app-v1.3.0-linux-x86_64.zip");
    assert_eq!(info.asset_url, "https://dl/linux.zip");
    assert_eq!(info.asset_size, 2048);
    assert!(info.has_update);
}

#[test]
fn api_record_without_fields_uses_defaults() {
    let info = update_from_api("v1.0.0", None, None, None, &[], "1.0.0", REPO, "linux-x86_64", false);
    assert_eq!(info.title, "v1.0.0");
    assert_eq!(info.body, "暂无更新说明。");
    assert_eq!(info.html_url, REPO);
    assert_eq!(info.asset_name, "");
    assert_eq!(info.asset_url, "");
    assert_eq!(info.asset_size, 0);
    assert!(!info.has_update);
}

#[test]
fn feed_entry_builds_update() {
    let info = update_from_feed("v2.0.0", "", "&lt;p&gt;新功能&lt;/p&gt;", REPO, "1.9.0");
    assert_eq!(info.version, "2.0.0");
    assert_eq!(info.title, "手写模拟器 v2.0.0");
    assert_eq!(info.html_url, "https://github.com/owner/app/releases/tag/v2.0.0");
    assert_eq!(info.body, "新功能");
    assert!(info.has_update);

    let linked = update_from_feed("v1.0.0", "https://x/rel", "", REPO, "1.0.0");
    assert_eq!(linked.html_url, "https://x/rel");
    assert!(!linked.has_update);
}

#[test]
fn asset_page_completes_update() {
    let mut info = update_from_feed("v2.0.0", "", "", REPO, "1.0.0");
    let page = "<a href=\"/owner/app/releases/download/v2.0.0/app-linux-x86_64.zip\">zip</a><a href=\"/owner/app/archive/refs/tags/v2.0.0.zip\">src</a>";
    attach_assets(&mut info, page, "linux-x86_64", false);
    assert_eq!(info.asset_name, "app-linux-x86_64.zip");
    assert_eq!(
        info.asset_url,
        "https://github.com/owner/app/releases/download/v2.0.0/app-linux-x86_64.zip"
    );

    let mut unchanged = update_from_feed("v2.0.0", "", "", REPO, "1.0.0");
    attach_assets(&mut unchanged, "<p>no links</p>", "linux-x86_64", false);
    assert_eq!(unchanged.asset_name, "");
    assert_eq!(unchanged.asset_url, "");
}

#[test]
fn redirect_to_tag_names_the_release() {
    let url = "https://github.com/owner/app/releases/tag/v3.1.0?from=latest";
    let (info, named) = update_from_redirect(url, false, REPO, "3.0.0").unwrap();
    assert!(named);
    assert_eq!(info.tag_name, "v3.1.0");
    assert_eq!(info.version, "3.1.0");
    assert_eq!(info.title, "手写模拟器 v3.1.0");
    assert_eq!(info.html_url, url);
    assert!(info.body.ends_with(url));
    assert!(info.has_update);
}

#[test]
fn redirect_without_release_means_current_is_latest() {
    let (info, named) = update_from_redirect("https://github.com/owner/app/releases", false, REPO, "1.2.0").unwrap();
    assert!(!named);
    assert_eq!(info.version, "1.2.0");
    assert_eq!(info.tag_name, "v1.2.0");
    assert_eq!(info.title, "手写模拟器 v1.2.0");
    assert_eq!(info.html_url, "https://github.com/owner/app/releases");
    assert!(!info.has_update);

    let (missing, _) = update_from_redirect("https://github.com/owner/app/nothing", true, REPO, "1.2.0").unwrap();
    assert_eq!(missing.body, "当前仓库暂未发布新 Release，当前已是最新版本。");

    assert!(update_from_redirect("https://github.com/owner/app", false, REPO, "1.2.0").is_none());
}

#[test]
fn fallback_is_current_version() {
    let info = latest_is_current("0.9.1", REPO);
    assert_eq!(info.tag_name, "v0.9.1");
    assert_eq!(info.body, "已是最新版本，暂未检测到更新。");
    assert_eq!(info.html_url, REPO);
    assert!(!info.has_update);
}

#[test]
fn api_reply_text_gives_the_release_update() {
    let body = [
        "{\"tag_name\": \"v1.3.0\", \"name\": \"Release 1.3\", ",
        "\"body\": \"## 更新\\n- 修复\\n\\n## 校验\\nsha\", ",
        "\"html_url\": \"https://github.com/owner/app/releases/tag/v1.3.0\", ",
        "\"assets\": [",
        "{\"name\": \"app-v1.3.0-linux-x86_64.zip\", \"browser_download_url\": \"https://dl/linux.zip\", \"size\": 2048}, ",
        "{\"name\": \"\", \"browser_download_url\": \"https://dl/unnamed\", \"size\": 1}, ",
        "{\"name\": \"app-v1.3.0-windows-x86_64.exe\", \"browser_download_url\": \"https://dl/win.exe\", \"size\": 4096}",
        "]}",
    ]
    .concat();
    let info = update_from_api_body(&body, "1.2.9", REPO, "linux-x86_64", false).unwrap();
    assert_eq!(info.version, "1.3.0");
    assert_eq!(info.tag_name, "v1.3.0");
    assert_eq!(info.title, "Release 1.3");
    assert_eq!(info.html_url, "https://github.com/owner/app/releases/tag/v1.3.0");
    assert_eq!(info.asset_name, "app-v1.3.0-linux-x86_64.zip");
    assert_eq!(info.asset_url, "https://dl/linux.zip");
    assert_eq!(info.asset_size, 2048);
    assert!(info.has_update);
}

#[test]
fn api_reply_fields_of_the_wrong_type_count_as_missing() {
    let body = "{\"tag_name\": 7, \"name\": null, \"html_url\": [\"x\"], \"assets\": {\"name\": \"a.exe\"}}";
    let info = update_from_api_body(body, "1.0.0", REPO, "linux-x86_64", false).unwrap();
    assert_eq!(info.tag_name, "");
    assert_eq!(info.title, "");
    assert_eq!(info.body, "暂无更新说明。");
    assert_eq!(info.html_url, REPO);
    assert_eq!(info.asset_name, "");
    assert_eq!(info.asset_size, 0);
}

#[test]
fn api_reply_sizes_that_are_no_whole_numbers_count_as_zero() {
    let body = "{\"tag_name\": \"v2.0.0\", \"assets\": [
        {\"name\": \"app-linux-x86_64.zip\", \"browser_download_url\": \"https://dl/a.zip\", \"size\": 1.5}
    ]}";
    let info = update_from_api_body(body, "1.0.0", REPO, "linux-x86_64", false).unwrap();
    assert_eq!(info.asset_name, "app-linux-x86_64.zip");
    assert_eq!(info.asset_size, 0);
}

#[test]
fn api_reply_that_is_not_json_is_refused() {
    let err = update_from_api_body("<html>rate limited</html>", "1.0.0", REPO, "linux-x86_64", false).unwrap_err();
    assert!(err.starts_with("解析 Release 数据失败: "));
    assert!(err.len() > "解析 Release 数据失败: ".len());
}

#[test]
fn update_sources_are_asked_in_order() {
    let mut order = Vec::new();
    let mut done = None;
    while let Some(s) = next_update_source(done) {
        order.push(s);
        done = Some(s);
    }
    assert_eq!(
        order,
        vec![
            UpdateSource::CurrentApi,
            UpdateSource::CurrentFeed,
            UpdateSource::CurrentRedirect,
            UpdateSource::FormerApi,
            UpdateSource::FormerRedirect,
        ]
    );
}
