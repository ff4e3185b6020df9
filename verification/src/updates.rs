//! What an update check concludes from each source it asks: the releases
//! API, the release feed (with its asset page), and the redirect of the
//! latest-release page.

use vstd::prelude::*;
use crate::release::{
    UpdateInfo, select_platform_asset, chosen_asset, first_in_tier, asset_names, parse_asset_links, pairs_view,
    asset_scan,
};
use crate::versions::{
    clean_version, spec_clean_version, compare_versions, version_order, lemma_version_order_antisymmetric,
    lemma_version_order_reflexive,
};
use crate::notes::{
    trim_release_notes_markdown, spec_trim_release_notes_markdown, html_release_body_to_text,
    spec_html_release_body_to_text,
};
use crate::html::{unescape_html, spec_unescape_html};
use crate::text::{
    chars_of, push_str, push_chars, find_from, find_chars_from, lemma_find_from_props,
    ends_with_seq, ends_with, string_of,
};
use crate::notes::sub_vec;
use crate::xmlread::opt_chars;
use crate::json::{
    JsonValue, json_of, parse_json, api_release_fields, field_str, json_assets, str_or_empty,
    asset_view, opt_string_view,
};

verus! {

/// An update by its values.
pub struct UpdateView {
    pub version: Seq<char>,
    pub tag_name: Seq<char>,
    pub title: Seq<char>,
    pub body: Seq<char>,
    pub html_url: Seq<char>,
    pub asset_name: Seq<char>,
    pub asset_url: Seq<char>,
    pub asset_size: u64,
    pub has_update: bool,
}

pub open spec fn update_view(u: UpdateInfo) -> UpdateView {
    UpdateView {
        version: u.version@,
        tag_name: u.tag_name@,
        title: u.title@,
        body: u.body@,
        html_url: u.html_url@,
        asset_name: u.asset_name@,
        asset_url: u.asset_url@,
        asset_size: u.asset_size,
        has_update: u.has_update,
    }
}

/// The version of a tag is newer than the current one.
pub open spec fn newer(tag: Seq<char>, current: Seq<char>) -> bool {
    version_order(spec_clean_version(tag), current) == 1
}

fn is_newer(version: &str, current: &str) -> (r: bool)
    ensures
        r == (version_order(version@, current@) == 1),
{
    match compare_versions(version, current) {
        core::cmp::Ordering::Greater => true,
        _ => false,
    }
}

// ---------------------------------------------------------------------------
// The releases API
// ---------------------------------------------------------------------------
/// The assets that have both a name and a download link.
pub open spec fn named_assets(assets: Seq<(String, String, u64)>) -> Seq<(String, String, u64)>
    decreases assets.len(),
{
    if assets.len() == 0 {
        Seq::empty()
    } else {
        let rest = named_assets(assets.drop_last());
        let a = assets.last();
        if a.0@.len() > 0 && a.1@.len() > 0 {
            rest.push(a)
        } else {
            rest
        }
    }
}

/// The package picked among the assets: name, link and size, or nothing.
pub open spec fn picked(assets: Seq<(String, String, u64)>, token: Seq<char>, windows: bool) -> (
    Seq<char>,
    Seq<char>,
    u64,
) {
    match chosen_asset(asset_names(assets), token, windows) {
        Some(k) => (assets[k].0@, assets[k].1@, assets[k].2),
        None => (Seq::empty(), Seq::empty(), 0),
    }
}

/// The update a release record of the API describes: the tag's version,
/// the release name (else the tag), its notes up to the second section
/// (a default text without notes), its page (else `fallback_url`), the
/// package for this platform among the assets with a name and a link, and
/// whether the version is newer than `current`.
pub open spec fn api_update(
    tag: Seq<char>,
    name: Option<Seq<char>>,
    body: Option<Seq<char>>,
    url: Option<Seq<char>>,
    assets: Seq<(String, String, u64)>,
    current: Seq<char>,
    fallback_url: Seq<char>,
    token: Seq<char>,
    windows: bool,
) -> UpdateView {
    let p = picked(named_assets(assets), token, windows);
    UpdateView {
        version: spec_clean_version(tag),
        tag_name: tag,
        title: match name {
            Some(n) => n,
            None => tag,
        },
        body: spec_trim_release_notes_markdown(
            match body {
                Some(b) => b,
                None => "暂无更新说明。"@,
            },
        ),
        html_url: match url {
            Some(u) => u,
            None => fallback_url,
        },
        asset_name: p.0,
        asset_url: p.1,
        asset_size: p.2,
        has_update: newer(tag, current),
    }
}

fn copy_assets_named(assets: &[(String, String, u64)]) -> (r: Vec<(String, String, u64)>)
    ensures
        r@ == named_assets(assets@),
{
    let mut out: Vec<(String, String, u64)> = Vec::new();
    let mut k: usize = 0;
    assert(assets@.take(0) =~= Seq::<(String, String, u64)>::empty());
    while k < assets.len()
        invariant
            k <= assets@.len(),
            out@ == named_assets(assets@.take(k as int)),
        decreases assets@.len() - k,
    {
        assert(assets@.take(k + 1).drop_last() =~= assets@.take(k as int));
        let a = &assets[k];
        if a.0.as_str().unicode_len() > 0 && a.1.as_str().unicode_len() > 0 {
            out.push((a.0.clone(), a.1.clone(), a.2));
        }
        k += 1;
    }
    assert(assets@.take(k as int) =~= assets@);
    out
}

fn copy_or(v: Option<&str>, default: &str) -> (r: String)
    ensures
        r@ == match v {
            Some(s) => s@,
            None => default@,
        },
{
    let mut s = String::new();
    match v {
        Some(x) => push_str(&mut s, x),
        None => push_str(&mut s, default),
    }
    assert(s@ =~= match v {
        Some(x) => x@,
        None => default@,
    });
    s
}

/// The update a release record of the releases API describes (see
/// `api_update`); `assets` holds each asset's name, link and size, empty or
/// 0 where the record has none.
pub fn update_from_api(
    tag_name: &str,
    name: Option<&str>,
    body: Option<&str>,
    html_url: Option<&str>,
    assets: &[(String, String, u64)],
    current_version: &str,
    fallback_url: &str,
    platform_token: &str,
    windows: bool,
) -> (r: UpdateInfo)
    ensures
        update_view(r) == api_update(
            tag_name@,
            match name {
                Some(n) => Some(n@),
                None => None,
            },
            match body {
                Some(b) => Some(b@),
                None => None,
            },
            match html_url {
                Some(u) => Some(u@),
                None => None,
            },
            assets@,
            current_version@,
            fallback_url@,
            platform_token@,
            windows,
        ),
{
    let version = copy_or(Some(clean_version(tag_name)), "");
    let title = copy_or(name, tag_name);
    let notes = copy_or(body, "暂无更新说明。");
    let body_text = trim_release_notes_markdown(notes.as_str());
    let url = copy_or(html_url, fallback_url);
    let kept = copy_assets_named(assets);
    let (asset_name, asset_url, asset_size) = match select_platform_asset(
        kept.as_slice(),
        platform_token,
        windows,
    ) {
        Some(a) => a,
        None => (String::new(), String::new(), 0),
    };
    let has_update = is_newer(version.as_str(), current_version);
    UpdateInfo {
        version,
        tag_name: copy_or(Some(tag_name), ""),
        title,
        body: body_text,
        html_url: url,
        asset_name,
        asset_url,
        asset_size,
        has_update,
    }
}

/// The assets, by their values, that have both a name and a download link.
pub open spec fn named_views(av: Seq<(Seq<char>, Seq<char>, u64)>) -> Seq<(Seq<char>, Seq<char>, u64)>
    decreases av.len(),
{
    if av.len() == 0 {
        Seq::empty()
    } else {
        let rest = named_views(av.drop_last());
        let a = av.last();
        if a.0.len() > 0 && a.1.len() > 0 {
            rest.push(a)
        } else {
            rest
        }
    }
}

/// The package picked among assets given by their values.
pub open spec fn picked_views(av: Seq<(Seq<char>, Seq<char>, u64)>, token: Seq<char>, windows: bool) -> (
    Seq<char>,
    Seq<char>,
    u64,
) {
    match chosen_asset(av.map_values(|a: (Seq<char>, Seq<char>, u64)| a.0), token, windows) {
        Some(k) => av[k],
        None => (Seq::empty(), Seq::empty(), 0),
    }
}

/// `api_update` with the assets given by their values.
pub open spec fn api_update_views(
    tag: Seq<char>,
    name: Option<Seq<char>>,
    body: Option<Seq<char>>,
    url: Option<Seq<char>>,
    av: Seq<(Seq<char>, Seq<char>, u64)>,
    current: Seq<char>,
    fallback_url: Seq<char>,
    token: Seq<char>,
    windows: bool,
) -> UpdateView {
    let p = picked_views(named_views(av), token, windows);
    UpdateView {
        version: spec_clean_version(tag),
        tag_name: tag,
        title: match name {
            Some(n) => n,
            None => tag,
        },
        body: spec_trim_release_notes_markdown(
            match body {
                Some(b) => b,
                None => "暂无更新说明。"@,
            },
        ),
        html_url: match url {
            Some(u) => u,
            None => fallback_url,
        },
        asset_name: p.0,
        asset_url: p.1,
        asset_size: p.2,
        has_update: newer(tag, current),
    }
}

proof fn lemma_named_views(assets: Seq<(String, String, u64)>)
    ensures
        named_assets(assets).map_values(|a: (String, String, u64)| asset_view(a)) == named_views(
            assets.map_values(|a: (String, String, u64)| asset_view(a)),
        ),
    decreases assets.len(),
{
    let f = |a: (String, String, u64)| asset_view(a);
    if assets.len() > 0 {
        lemma_named_views(assets.drop_last());
        assert(assets.drop_last().map_values(f) =~= assets.map_values(f).drop_last());
        let rest = named_assets(assets.drop_last());
        if assets.last().0@.len() > 0 && assets.last().1@.len() > 0 {
            assert(rest.push(assets.last()).map_values(f) =~= rest.map_values(f).push(f(assets.last())));
        }
    } else {
        assert(named_assets(assets).map_values(f) =~= Seq::<(Seq<char>, Seq<char>, u64)>::empty());
    }
}

proof fn lemma_first_in_tier(names: Seq<Seq<char>>, token: Seq<char>, tier: int, windows: bool, k: int)
    ensures
        first_in_tier(names, token, tier, windows, k) matches Some(i) ==> 0 <= i < names.len(),
    decreases names.len() - k,
{
    if 0 <= k < names.len() {
        lemma_first_in_tier(names, token, tier, windows, k + 1);
    }
}

/// The update of a release record depends on its assets only through their
/// values.
pub proof fn lemma_api_update_views(
    tag: Seq<char>,
    name: Option<Seq<char>>,
    body: Option<Seq<char>>,
    url: Option<Seq<char>>,
    assets: Seq<(String, String, u64)>,
    current: Seq<char>,
    fallback_url: Seq<char>,
    token: Seq<char>,
    windows: bool,
)
    ensures
        api_update(tag, name, body, url, assets, current, fallback_url, token, windows)
            == api_update_views(
            tag,
            name,
            body,
            url,
            assets.map_values(|a: (String, String, u64)| asset_view(a)),
            current,
            fallback_url,
            token,
            windows,
        ),
{
    let f = |a: (String, String, u64)| asset_view(a);
    lemma_named_views(assets);
    let na = named_assets(assets);
    let nv = named_views(assets.map_values(f));
    assert(asset_names(na) =~= nv.map_values(|a: (Seq<char>, Seq<char>, u64)| a.0)) by {
        assert forall|i: int| 0 <= i < na.len() implies asset_names(na)[i] == nv[i].0 by {
            assert(nv[i] == f(na[i]));
        }
    }
    lemma_first_in_tier(asset_names(na), token, 0, windows, 0);
    lemma_first_in_tier(asset_names(na), token, 1, windows, 0);
    lemma_first_in_tier(asset_names(na), token, 2, windows, 0);
    lemma_first_in_tier(asset_names(na), token, 3, windows, 0);
    match chosen_asset(asset_names(na), token, windows) {
        Some(k) => {
            assert(nv[k] == f(na[k]));
        },
        None => {},
    }
}

/// The update of a parsed release record: its fields as
/// `api_release_fields` reads them, taken as `api_update` takes them.
pub open spec fn json_update(
    v: JsonValue,
    current: Seq<char>,
    fallback_url: Seq<char>,
    token: Seq<char>,
    windows: bool,
) -> UpdateView {
    api_update_views(
        str_or_empty(field_str(v, "tag_name"@)),
        field_str(v, "name"@),
        field_str(v, "body"@),
        field_str(v, "html_url"@),
        json_assets(v),
        current,
        fallback_url,
        token,
        windows,
    )
}

/// The message for a release record that is not JSON.
pub open spec fn api_parse_error(m: Seq<char>) -> Seq<char> {
    "解析 Release 数据失败: "@ + m
}

fn opt_str<'a>(s: &'a Option<String>) -> (r: Option<&'a str>)
    ensures
        match r {
            Some(x) => opt_string_view(*s) == Some(x@),
            None => s is None,
        },
{
    match s {
        Some(x) => Some(x.as_str()),
        None => None,
    }
}

/// The update a reply of the releases API describes: the reply text is read
/// as JSON and its release record taken as `update_from_api` takes it; a
/// reply that is not JSON gives the error with the reader's message.
pub fn update_from_api_body(
    body: &str,
    current_version: &str,
    fallback_url: &str,
    platform_token: &str,
    windows: bool,
) -> (r: Result<UpdateInfo, String>)
    ensures
        match json_of(body@) {
            Ok(v) => r matches Ok(u) && update_view(u) == json_update(
                v,
                current_version@,
                fallback_url@,
                platform_token@,
                windows,
            ),
            Err(m) => r matches Err(e) && e@ == api_parse_error(m),
        },
{
    match parse_json(body) {
        Ok(v) => {
            let (tag, name, notes, url, assets) = api_release_fields(&v);
            let info = update_from_api(
                tag.as_str(),
                opt_str(&name),
                opt_str(&notes),
                opt_str(&url),
                assets.as_slice(),
                current_version,
                fallback_url,
                platform_token,
                windows,
            );
            proof {
                lemma_api_update_views(
                    tag@,
                    opt_string_view(name),
                    opt_string_view(notes),
                    opt_string_view(url),
                    assets@,
                    current_version@,
                    fallback_url@,
                    platform_token@,
                    windows,
                );
            }
            Ok(info)
        },
        Err(m) => {
            let mut e = String::new();
            push_str(&mut e, "解析 Release 数据失败: ");
            push_str(&mut e, m.as_str());
            Err(e)
        },
    }
}

// ---------------------------------------------------------------------------
// The release feed
// ---------------------------------------------------------------------------
/// The title of a release found without its record.
pub open spec fn release_title(tag: Seq<char>) -> Seq<char> {
    "手写模拟器 "@ + tag
}

/// The update the latest feed entry describes: its notes turned into text,
/// its page (else the tag's page under `repo_url`); no package yet.
pub open spec fn feed_update(
    tag: Seq<char>,
    link: Seq<char>,
    content_html: Seq<char>,
    repo_url: Seq<char>,
    current: Seq<char>,
) -> UpdateView {
    UpdateView {
        version: spec_clean_version(tag),
        tag_name: tag,
        title: release_title(tag),
        body: spec_html_release_body_to_text(spec_unescape_html(content_html)),
        html_url: if link.len() == 0 {
            repo_url + "/releases/tag/"@ + tag
        } else {
            link
        },
        asset_name: Seq::empty(),
        asset_url: Seq::empty(),
        asset_size: 0,
        has_update: newer(tag, current),
    }
}

/// The update the latest entry of the release feed describes (see
/// `feed_update`).
pub fn update_from_feed(
    tag_name: &str,
    link: &str,
    content_html: &str,
    repo_url: &str,
    current_version: &str,
) -> (r: UpdateInfo)
    ensures
        update_view(r) == feed_update(
            tag_name@,
            link@,
            content_html@,
            repo_url@,
            current_version@,
        ),
{
    let version = copy_or(Some(clean_version(tag_name)), "");
    let mut title = String::new();
    push_str(&mut title, "手写模拟器 ");
    push_str(&mut title, tag_name);
    let text = unescape_html(content_html);
    let body = html_release_body_to_text(text.as_str());
    let mut url = String::new();
    if link.unicode_len() == 0 {
        push_str(&mut url, repo_url);
        push_str(&mut url, "/releases/tag/");
        push_str(&mut url, tag_name);
    } else {
        push_str(&mut url, link);
    }
    assert(url@ =~= if link@.len() == 0 {
        repo_url@ + "/releases/tag/"@ + tag_name@
    } else {
        link@
    });
    assert(title@ =~= release_title(tag_name@));
    let has_update = is_newer(version.as_str(), current_version);
    UpdateInfo {
        version,
        tag_name: copy_or(Some(tag_name), ""),
        title,
        body,
        html_url: url,
        asset_name: String::new(),
        asset_url: String::new(),
        asset_size: 0,
        has_update,
    }
}

/// The assets of an asset page as packages of unknown size.
pub open spec fn page_assets(html: Seq<char>) -> Seq<(Seq<char>, Seq<char>)> {
    asset_scan(html, 0, Seq::empty())
}

pub open spec fn sized_names(ps: Seq<(Seq<char>, Seq<char>)>) -> Seq<Seq<char>> {
    ps.map_values(|p: (Seq<char>, Seq<char>)| p.0)
}

/// Completes an update with the package for this platform found on the
/// release's asset page; an update stays as it is when the page offers none.
pub fn attach_assets(info: &mut UpdateInfo, asset_page_html: &str, platform_token: &str, windows: bool)
    ensures
        ({
            let ps = page_assets(asset_page_html@);
            match chosen_asset(sized_names(ps), platform_token@, windows) {
                Some(k) => update_view(*final(info)) == (UpdateView {
                    asset_name: ps[k].0,
                    asset_url: ps[k].1,
                    ..update_view(*old(info))
                }),
                None => update_view(*final(info)) == update_view(*old(info)),
            }
        }),
{
    let links = parse_asset_links(asset_page_html);
    let mut assets: Vec<(String, String, u64)> = Vec::new();
    let mut k: usize = 0;
    while k < links.len()
        invariant
            k <= links@.len(),
            assets@.len() == k,
            forall|j: int|
                0 <= j < k ==> (#[trigger] assets@[j]).0@ == links@[j].0@ && assets@[j].1@
                    == links@[j].1@,
        decreases links@.len() - k,
    {
        assets.push((links[k].0.clone(), links[k].1.clone(), 0));
        k += 1;
    }
    let ghost ps = page_assets(asset_page_html@);
    assert(pairs_view(links@) == ps);
    assert(asset_names(assets@) =~= sized_names(ps));
    let ghost ck = chosen_asset(sized_names(ps), platform_token@, windows);
    match select_platform_asset(assets.as_slice(), platform_token, windows) {
        Some((name, url, size)) => {
            proof {
                lemma_chosen_in_range(sized_names(ps), platform_token@, windows);
                let k = ck.unwrap();
                assert(ps[k] == pairs_view(links@)[k]);
                assert(assets@[k].0@ == links@[k].0@);
            }
            info.asset_name = name;
            info.asset_url = url;
        },
        None => {},
    }
}

proof fn lemma_first_in_tier_range(
    names: Seq<Seq<char>>,
    token: Seq<char>,
    tier: int,
    windows: bool,
    k: int,
)
    ensures
        crate::release::first_in_tier(names, token, tier, windows, k) matches Some(i) ==> 0 <= i
            < names.len(),
    decreases names.len() - k,
{
    if 0 <= k < names.len() {
        lemma_first_in_tier_range(names, token, tier, windows, k + 1);
    }
}

proof fn lemma_chosen_in_range(names: Seq<Seq<char>>, token: Seq<char>, windows: bool)
    ensures
        chosen_asset(names, token, windows) matches Some(i) ==> 0 <= i < names.len(),
{
    lemma_first_in_tier_range(names, token, 0, windows, 0);
    lemma_first_in_tier_range(names, token, 1, windows, 0);
    lemma_first_in_tier_range(names, token, 2, windows, 0);
    lemma_first_in_tier_range(names, token, 3, windows, 0);
}

// ---------------------------------------------------------------------------
// The latest-release redirect
// ---------------------------------------------------------------------------
/// The first `/`, `?` or `#` of `s` at or after `k`.
pub open spec fn first_stop(s: Seq<char>, k: int) -> int
    decreases s.len() - k,
{
    if k < 0 || k >= s.len() {
        s.len() as int
    } else if s[k] == '/' || s[k] == '?' || s[k] == '#' {
        k
    } else {
        first_stop(s, k + 1)
    }
}

proof fn lemma_first_stop_bounds(s: Seq<char>, k: int)
    requires
        0 <= k <= s.len(),
    ensures
        k <= first_stop(s, k) <= s.len(),
    decreases s.len() - k,
{
    if k < s.len() {
        lemma_first_stop_bounds(s, k + 1);
    }
}

/// The message of an update found only by its page.
pub open spec fn redirect_body(final_url: Seq<char>) -> Seq<char> {
    "发现新版本发布！自动更新直链获取失败，请点击「浏览器下载」前往 GitHub Release 页面：\n\n"@
        + final_url
}

/// What the latest-release page tells from where it redirected: a page
/// under `/releases/tag/` names the latest tag (up to the next `/`, `?` or
/// `#`; marked `true`); a missing page, or the release list itself, means
/// there is no release yet and the current version is the latest (marked
/// `false`); anything else tells nothing.
pub open spec fn redirect_update(
    final_url: Seq<char>,
    not_found: bool,
    repo_url: Seq<char>,
    current: Seq<char>,
) -> Option<(bool, UpdateView)> {
    match find_from(final_url, "/releases/tag/"@, 0) {
        Some(pos) => {
            let part = final_url.skip(pos + 14);
            let tag = part.take(first_stop(part, 0));
            Some((true,
                UpdateView {
                    version: spec_clean_version(tag),
                    tag_name: tag,
                    title: release_title(tag),
                    body: redirect_body(final_url),
                    html_url: final_url,
                    asset_name: Seq::empty(),
                    asset_url: Seq::empty(),
                    asset_size: 0,
                    has_update: newer(tag, current),
                },
            ))
        },
        None => if not_found || ends_with_seq(final_url, "/releases"@) {
            Some((false,
                UpdateView {
                    version: current,
                    tag_name: "v"@ + current,
                    title: release_title("v"@ + current),
                    body: "当前仓库暂未发布新 Release，当前已是最新版本。"@,
                    html_url: repo_url + "/releases"@,
                    asset_name: Seq::empty(),
                    asset_url: Seq::empty(),
                    asset_size: 0,
                    has_update: false,
                },
            ))
        } else {
            None
        },
    }
}

fn current_update(current_version: &str, body: &str, html_url: String) -> (r: UpdateInfo)
    ensures
        update_view(r) == (UpdateView {
            version: current_version@,
            tag_name: "v"@ + current_version@,
            title: release_title("v"@ + current_version@),
            body: body@,
            html_url: html_url@,
            asset_name: Seq::empty(),
            asset_url: Seq::empty(),
            asset_size: 0,
            has_update: false,
        }),
{
    let mut tag = String::new();
    push_str(&mut tag, "v");
    push_str(&mut tag, current_version);
    let mut title = String::new();
    push_str(&mut title, "手写模拟器 ");
    push_str(&mut title, tag.as_str());
    assert(title@ =~= release_title("v"@ + current_version@));
    UpdateInfo {
        version: copy_or(Some(current_version), ""),
        tag_name: tag,
        title,
        body: copy_or(Some(body), ""),
        html_url,
        asset_name: String::new(),
        asset_url: String::new(),
        asset_size: 0,
        has_update: false,
    }
}

/// What the latest-release page tells from where it redirected (see
/// `redirect_update`); `not_found` is whether the page answered 404. The
/// flag is whether the page named a release.
pub fn update_from_redirect(
    final_url: &str,
    not_found: bool,
    repo_url: &str,
    current_version: &str,
) -> (r: Option<(UpdateInfo, bool)>)
    ensures
        match redirect_update(final_url@, not_found, repo_url@, current_version@) {
            Some((named, v)) => r matches Some((u, f)) && update_view(u) == v && f == named,
            None => r is None,
        },
{
    let cs = chars_of(final_url);
    let marker = chars_of("/releases/tag/");
    proof {
        reveal_strlit("/releases/tag/");
        lemma_find_from_props(cs@, marker@, 0);
    }
    assert(marker@.len() == 14);
    match find_chars_from(cs.as_slice(), marker.as_slice(), 0) {
        Some(pos) => {
            let n = cs.len();
            assert(crate::text::occurs_at(cs@, marker@, pos as int));
            let start = pos + 14;
            let ghost part = cs@.skip(start as int);
            let mut end = start;
            proof {
                lemma_first_stop_bounds(part, 0);
            }
            while end < cs.len() && !(cs[end] == '/' || cs[end] == '?' || cs[end] == '#')
                invariant
                    start <= end <= cs@.len(),
                    part == cs@.skip(start as int),
                    first_stop(part, 0) == first_stop(part, end - start),
                decreases cs@.len() - end,
            {
                end += 1;
            }
            let tag_chars = sub_vec(cs.as_slice(), start, end);
            assert(tag_chars@ =~= part.take(first_stop(part, 0)));
            let tag = string_of(tag_chars.as_slice());
            let version = copy_or(Some(clean_version(tag.as_str())), "");
            let mut title = String::new();
            push_str(&mut title, "手写模拟器 ");
            push_str(&mut title, tag.as_str());
            let mut body = String::new();
            push_str(
                &mut body,
                "发现新版本发布！自动更新直链获取失败，请点击「浏览器下载」前往 GitHub Release 页面：\n\n",
            );
            push_str(&mut body, final_url);
            assert(title@ =~= release_title(tag@));
            assert(body@ =~= redirect_body(final_url@));
            let has_update = is_newer(version.as_str(), current_version);
            Some(
                (
                    UpdateInfo {
                        version,
                        tag_name: tag,
                        title,
                        body,
                        html_url: copy_or(Some(final_url), ""),
                        asset_name: String::new(),
                        asset_url: String::new(),
                        asset_size: 0,
                        has_update,
                    },
                    true,
                ),
            )
        },
        None => {
            let suffix = chars_of("/releases");
            if not_found || ends_with(cs.as_slice(), suffix.as_slice()) {
                let mut url = String::new();
                push_str(&mut url, repo_url);
                push_str(&mut url, "/releases");
                Some((current_update(current_version, "当前仓库暂未发布新 Release，当前已是最新版本。", url), false))
            } else {
                None
            }
        },
    }
}

/// The answer when no source tells of a release: the current version is the
/// latest, with `repo_url` as its page.
pub fn latest_is_current(current_version: &str, repo_url: &str) -> (r: UpdateInfo)
    ensures
        update_view(r) == (UpdateView {
            version: current_version@,
            tag_name: "v"@ + current_version@,
            title: release_title("v"@ + current_version@),
            body: "已是最新版本，暂未检测到更新。"@,
            html_url: repo_url@,
            asset_name: Seq::empty(),
            asset_url: Seq::empty(),
            asset_size: 0,
            has_update: false,
        }),
{
    current_update(current_version, "已是最新版本，暂未检测到更新。", copy_or(Some(repo_url), ""))
}


// ---------------------------------------------------------------------------
// When an update is offered
// ---------------------------------------------------------------------------
/// Whichever source it comes from, an update is offered exactly when the
/// release's version (its tag without the `v`) orders after the running
/// version: never for an older or the same version, and whenever an update
/// is offered, the running version orders before the release.
pub proof fn lemma_update_only_when_newer(
    tag: Seq<char>,
    name: Option<Seq<char>>,
    body: Option<Seq<char>>,
    url: Option<Seq<char>>,
    assets: Seq<(String, String, u64)>,
    av: Seq<(Seq<char>, Seq<char>, u64)>,
    link: Seq<char>,
    content_html: Seq<char>,
    final_url: Seq<char>,
    not_found: bool,
    repo_url: Seq<char>,
    current: Seq<char>,
    fallback_url: Seq<char>,
    token: Seq<char>,
    windows: bool,
)
    ensures
        api_update(tag, name, body, url, assets, current, fallback_url, token, windows).has_update
            <==> version_order(spec_clean_version(tag), current) == 1,
        api_update_views(tag, name, body, url, av, current, fallback_url, token, windows).has_update
            <==> version_order(spec_clean_version(tag), current) == 1,
        feed_update(tag, link, content_html, repo_url, current).has_update <==> version_order(
            spec_clean_version(tag),
            current,
        ) == 1,
        redirect_update(final_url, not_found, repo_url, current) matches Some((named, u)) ==> (
        u.has_update <==> named && version_order(spec_clean_version(u.tag_name), current) == 1),
        feed_update(tag, link, content_html, repo_url, current).has_update ==> version_order(
            current,
            spec_clean_version(tag),
        ) == -1,
        spec_clean_version(tag) == current ==> !feed_update(tag, link, content_html, repo_url, current).has_update
            && !api_update(tag, name, body, url, assets, current, fallback_url, token, windows).has_update,
{
    lemma_version_order_antisymmetric(spec_clean_version(tag), current);
    lemma_version_order_reflexive(current);
}

// ---------------------------------------------------------------------------
// The order of the sources
// ---------------------------------------------------------------------------
/// A place an update check asks, in the order it asks them.
#[derive(Debug, Clone, Copy, PartialEq, Eq, Structural)]
pub enum UpdateSource {
    /// The releases API of the current repository.
    CurrentApi,
    /// The release feed of the current repository.
    CurrentFeed,
    /// The latest-release page of the current repository.
    CurrentRedirect,
    /// The releases API of the former repository.
    FormerApi,
    /// The latest-release page of the former repository.
    FormerRedirect,
}

/// The source asked after `done` failed (the first one when nothing was
/// asked yet); none after the last, when the current version counts as the
/// latest.
pub open spec fn spec_next_update_source(done: Option<UpdateSource>) -> Option<UpdateSource> {
    match done {
        None => Some(UpdateSource::CurrentApi),
        Some(UpdateSource::CurrentApi) => Some(UpdateSource::CurrentFeed),
        Some(UpdateSource::CurrentFeed) => Some(UpdateSource::CurrentRedirect),
        Some(UpdateSource::CurrentRedirect) => Some(UpdateSource::FormerApi),
        Some(UpdateSource::FormerApi) => Some(UpdateSource::FormerRedirect),
        Some(UpdateSource::FormerRedirect) => None,
    }
}

/// The next source an update check asks; the first answer it gets ends the
/// check.
pub fn next_update_source(done: Option<UpdateSource>) -> (r: Option<UpdateSource>)
    ensures
        r == spec_next_update_source(done),
{
    match done {
        None => Some(UpdateSource::CurrentApi),
        Some(UpdateSource::CurrentApi) => Some(UpdateSource::CurrentFeed),
        Some(UpdateSource::CurrentFeed) => Some(UpdateSource::CurrentRedirect),
        Some(UpdateSource::CurrentRedirect) => Some(UpdateSource::FormerApi),
        Some(UpdateSource::FormerApi) => Some(UpdateSource::FormerRedirect),
        Some(UpdateSource::FormerRedirect) => None,
    }
}

} // verus!
