//! Reading release pages: the latest entry of a release feed, the download
//! links of an asset page, and the choice of the package for this platform.

use vstd::prelude::*;
use crate::text::{
    chars_of, find_from, find_chars_from, lemma_find_from_props, string_of, string_of_range,
    trim_seq, trim_bounds, occurs_at, contains_seq, contains, starts_with_seq, ends_with_seq,
    ends_with, rfind_char_before, rfind_char, find_char_from, spec_ascii_lower_seq,
    ascii_lower_chars, seq_eq, str_eq,
};
use crate::html::{spec_unescape_html, unescape_html};
use crate::notes::{sub_vec, append_chars};
use crate::text::push_str;

verus! {

/// A release offered as an update.
#[derive(Clone, Debug)]
pub struct UpdateInfo {
    pub version: String,
    pub tag_name: String,
    pub title: String,
    pub body: String,
    pub html_url: String,
    pub asset_name: String,
    pub asset_url: String,
    pub asset_size: u64,
    pub has_update: bool,
}

/// The part of `s` after its last `/` (all of `s` when it has none).
pub open spec fn last_segment(s: Seq<char>) -> Seq<char> {
    match rfind_char_before(s, '/', s.len() as int) {
        Some(k) => s.skip(k + 1),
        None => s,
    }
}

fn last_segment_exec(s: &[char]) -> (r: Vec<char>)
    ensures
        r@ == last_segment(s@),
{
    match rfind_char(s, '/', s.len()) {
        Some(k) => {
            proof {
                crate::text::lemma_rfind_char_before_bounds(s@, '/', s@.len() as int);
            }
            let r = sub_vec(s, k + 1, s.len());
            assert(r@ =~= s@.skip(k + 1));
            r
        },
        None => {
            assert(s@.subrange(0, s@.len() as int) =~= s@);
            sub_vec(s, 0, s.len())
        },
    }
}

// ---------------------------------------------------------------------------
// Release feed
// ---------------------------------------------------------------------------
/// From position `i` of a feed entry, the first `href="..."` value that
/// points at a release tag page and ends in a non-empty tag.
pub open spec fn release_href(e: Seq<char>, i: int) -> Option<Seq<char>>
    decreases e.len() - i,
{
    if i < 0 || i > e.len() {
        None
    } else {
        proof {
            lemma_find_from_props(e, "href=\""@, i);
        }
        match find_from(e, "href=\""@, i) {
            None => None,
            Some(h) => {
                proof {
                    lemma_find_from_props(e, seq!['"'], h + 6);
                    reveal_strlit("href=\"");
                }
                match find_from(e, seq!['"'], h + 6) {
                    None => None,
                    Some(q) => {
                        let url = e.subrange(h + 6, q);
                        if contains_seq(url, "/releases/tag/"@) && last_segment(url).len() > 0 {
                            Some(url)
                        } else {
                            release_href(e, q)
                        }
                    },
                }
            },
        }
    }
}

/// The first `<entry>` of a feed, up to its `</entry>` or the end.
pub open spec fn first_entry(feed: Seq<char>) -> Option<Seq<char>> {
    match find_from(feed, "<entry>"@, 0) {
        None => None,
        Some(s) => match find_from(feed, "</entry>"@, s) {
            Some(t) => Some(feed.subrange(s, t)),
            None => Some(feed.subrange(s, feed.len() as int)),
        },
    }
}

/// The text between `<content ...>` and `</content>` of an entry, or empty.
pub open spec fn entry_content(e: Seq<char>) -> Seq<char> {
    match find_from(e, "<content"@, 0) {
        None => Seq::empty(),
        Some(c) => match find_from(e, seq!['>'], c) {
            None => Seq::empty(),
            Some(g) => match find_from(e, "</content>"@, g + 1) {
                Some(t) => e.subrange(g + 1, t),
                None => Seq::empty(),
            },
        },
    }
}

/// The text of the entry's `<title>`, trimmed, if it is closed.
pub open spec fn entry_title(e: Seq<char>) -> Option<Seq<char>> {
    match find_from(e, "<title>"@, 0) {
        None => None,
        Some(t) => match find_from(e, "</title>"@, t + 7) {
            Some(u) => Some(trim_seq(e.subrange(t + 7, u))),
            None => None,
        },
    }
}

/// Tag, release page link and escaped body HTML of the latest release: the
/// tag comes from the first release-tag link of the first entry (decoded),
/// else from its title (then without link).
pub open spec fn spec_parse_latest_entry(feed: Seq<char>) -> Option<
    (Seq<char>, Seq<char>, Seq<char>),
> {
    match first_entry(feed) {
        None => None,
        Some(e) => {
            let found = match release_href(e, 0) {
                Some(url) => (spec_unescape_html(last_segment(url)), spec_unescape_html(url)),
                None => (Seq::empty(), Seq::empty()),
            };
            if found.0.len() > 0 {
                Some((found.0, found.1, entry_content(e)))
            } else {
                match entry_title(e) {
                    Some(t) => Some((t, Seq::empty(), entry_content(e))),
                    None => None,
                }
            }
        },
    }
}

pub open spec fn triple_view(r: Option<(String, String, String)>) -> Option<
    (Seq<char>, Seq<char>, Seq<char>),
> {
    match r {
        Some((a, b, c)) => Some((a@, b@, c@)),
        None => None,
    }
}

fn find_lit(hay: &[char], lit: &str, from: usize) -> (r: Option<usize>)
    ensures
        r matches Some(i) ==> find_from(hay@, lit@, from as int) == Some(i as int) && i + lit@.len()
            <= hay@.len(),
        r is None ==> find_from(hay@, lit@, from as int) is None,
{
    let n = chars_of(lit);
    let r = find_chars_from(hay, n.as_slice(), from);
    proof {
        if from <= hay@.len() {
            lemma_find_from_props(hay@, lit@, from as int);
        }
    }
    match r {
        Some(i) => {
            assert(occurs_at(hay@, lit@, i as int)) by {
                if from > hay@.len() {
                    assert(find_from(hay@, lit@, from as int) is None);
                }
            }
            Some(i)
        },
        None => None,
    }
}

fn release_href_exec(e: &[char]) -> (r: Option<Vec<char>>)
    ensures
        match release_href(e@, 0) {
            Some(u) => r matches Some(v) && v@ == u,
            None => r is None,
        },
{
    let mut i: usize = 0;
    loop
        invariant
            i <= e.len(),
            release_href(e@, 0) == release_href(e@, i as int),
        decreases e.len() - i,
    {
        proof {
            reveal_strlit("href=\"");
        }
        match find_lit(e, "href=\"", i) {
            None => {
                return None;
            },
            Some(h) => {
                proof {
                    lemma_find_from_props(e@, "href=\""@, i as int);
                    lemma_find_from_props(e@, seq!['"'], h + 6);
                }
                match find_char_from(e, '"', h + 6) {
                    None => {
                        return None;
                    },
                    Some(q) => {
                        proof {
                            assert(occurs_at(e@, seq!['"'], q as int));
                        }
                        let url = sub_vec(e, h + 6, q);
                        let seg = last_segment_exec(url.as_slice());
                        let nv = chars_of("/releases/tag/");
                        assert(find_from(e@, "href=\""@, i as int) == Some(h as int));
                        assert(find_from(e@, seq!['"'], h + 6) == Some(q as int));
                        assert(url@ == e@.subrange(h + 6, q as int));
                        if contains(url.as_slice(), nv.as_slice()) && seg.len() > 0 {
                            assert(release_href(e@, i as int) == Some(url@));
                            return Some(url);
                        }
                        assert(release_href(e@, i as int) == release_href(e@, q as int));
                        i = q;
                    },
                }
            },
        }
    }
}

/// Parses the latest release entry of a release feed into (tag, release
/// page link, escaped body HTML).
pub fn parse_latest_entry_from_atom(feed_xml: &str) -> (r: Option<(String, String, String)>)
    ensures
        triple_view(r) == spec_parse_latest_entry(feed_xml@),
{
    let feed = chars_of(feed_xml);
    let s = match find_lit(feed.as_slice(), "<entry>", 0) {
        None => {
            return None;
        },
        Some(s) => s,
    };
    let t = match find_lit(feed.as_slice(), "</entry>", s) {
        Some(t) => {
            proof {
                lemma_find_from_props(feed@, "</entry>"@, s as int);
            }
            t
        },
        None => feed.len(),
    };
    let e = sub_vec(feed.as_slice(), s, t);
    let (mut tag, mut link) = match release_href_exec(e.as_slice()) {
        Some(url) => {
            let seg = last_segment_exec(url.as_slice());
            let seg_s = string_of(seg.as_slice());
            let url_s = string_of(url.as_slice());
            (unescape_html(seg_s.as_str()), unescape_html(url_s.as_str()))
        },
        None => (String::new(), String::new()),
    };
    // content
    let content = match find_lit(e.as_slice(), "<content", 0) {
        None => String::new(),
        Some(c) => match find_char_from(e.as_slice(), '>', c) {
            None => String::new(),
            Some(g) => {
                proof {
                    lemma_find_from_props(e@, seq!['>'], c as int);
                    assert(occurs_at(e@, seq!['>'], g as int));
                }
                match find_lit(e.as_slice(), "</content>", g + 1) {
                    Some(u) => {
                        proof {
                            lemma_find_from_props(e@, "</content>"@, g + 1);
                        }
                        string_of_range(e.as_slice(), g + 1, u)
                    },
                    None => String::new(),
                }
            },
        },
    };
    let tag_chars = chars_of(tag.as_str());
    if tag_chars.len() == 0 {
        let ts = match find_lit(e.as_slice(), "<title>", 0) {
            None => {
                return None;
            },
            Some(ts) => ts,
        };
        proof {
            reveal_strlit("<title>");
        }
        let te = match find_lit(e.as_slice(), "</title>", ts + 7) {
            None => {
                return None;
            },
            Some(te) => {
                proof {
                    lemma_find_from_props(e@, "</title>"@, ts + 7);
                }
                te
            },
        };
        let (lo, hi) = trim_bounds(e.as_slice(), ts + 7, te);
        tag = string_of_range(e.as_slice(), lo, hi);
        link = String::new();
    }
    Some((tag, link, content))
}

// ---------------------------------------------------------------------------
// Asset page
// ---------------------------------------------------------------------------
/// A download path is kept when it is absolute, contains the download
/// marker, and its file name is a non-empty `.zip` or `.exe` name.
pub open spec fn keeps_asset_path(path: Seq<char>) -> bool {
    let name = last_segment(path);
    &&& path.len() > 0 && path[0] == '/'
    &&& contains_seq(path, "/releases/download/"@)
    &&& name.len() > 0
    &&& (ends_with_seq(name, ".zip"@) || ends_with_seq(name, ".exe"@))
}

pub open spec fn has_asset_name(acc: Seq<(Seq<char>, Seq<char>)>, name: Seq<char>) -> bool {
    exists|k: int| 0 <= k < acc.len() && (#[trigger] acc[k]).0 == name
}

/// The assets found from position `i` on, after those already in `acc`:
/// each download marker is traced back to the quote that opens its link,
/// kept paths are added as (file name, absolute URL) unless that file name
/// is already listed.
pub open spec fn asset_scan(cs: Seq<char>, i: int, acc: Seq<(Seq<char>, Seq<char>)>) -> Seq<
    (Seq<char>, Seq<char>),
>
    decreases cs.len() - i,
{
    if i < 0 || i > cs.len() {
        acc
    } else {
        proof {
            lemma_find_from_props(cs, "/releases/download/"@, i);
            reveal_strlit("/releases/download/");
        }
        match find_from(cs, "/releases/download/"@, i) {
            None => acc,
            Some(p) => {
                proof {
                    crate::text::lemma_rfind_char_before_bounds(cs, '"', p);
                }
                match rfind_char_before(cs, '"', p) {
                    Some(q) if q >= i => {
                        proof {
                            lemma_find_from_props(cs, seq!['"'], q + 1);
                        }
                        match find_from(cs, seq!['"'], q + 1) {
                            None => acc,
                            Some(e) => {
                                let path = cs.subrange(q + 1, e);
                                let name = last_segment(path);
                                let next = if keeps_asset_path(path) && !has_asset_name(acc, name) {
                                    acc.push((name, "https://github.com"@ + path))
                                } else {
                                    acc
                                };
                                asset_scan(cs, e, next)
                            },
                        }
                    },
                    _ => asset_scan(cs, p + 19, acc),
                }
            },
        }
    }
}

pub open spec fn pairs_view(v: Seq<(String, String)>) -> Seq<(Seq<char>, Seq<char>)> {
    v.map_values(|a: (String, String)| (a.0@, a.1@))
}

fn has_name_exec(assets: &Vec<(String, String)>, name: &[char]) -> (r: bool)
    ensures
        r == has_asset_name(pairs_view(assets@), name@),
{
    let mut k: usize = 0;
    while k < assets.len()
        invariant
            k <= assets.len(),
            forall|m: int| 0 <= m < k ==> (#[trigger] pairs_view(assets@)[m]).0 != name@,
        decreases assets.len() - k,
    {
        let n = chars_of(assets[k].0.as_str());
        if seq_eq(n.as_slice(), name) {
            assert(pairs_view(assets@)[k as int].0 == name@);
            return true;
        }
        k += 1;
    }
    false
}

/// Extracts every binary asset link (`href="/<owner>/<repo>/releases/download/<tag>/<file>"`)
/// of an asset page as (file name, absolute URL), skipping source archives
/// and repeated names.
pub fn parse_asset_links(html: &str) -> (r: Vec<(String, String)>)
    ensures
        pairs_view(r@) == asset_scan(html@, 0, Seq::empty()),
{
    let cs = chars_of(html);
    let mut assets: Vec<(String, String)> = Vec::new();
    let mut i: usize = 0;
    assert(pairs_view(assets@) =~= Seq::<(Seq<char>, Seq<char>)>::empty());
    loop
        invariant
            i <= cs.len(),
            cs@ == html@,
            asset_scan(cs@, 0, Seq::empty()) == asset_scan(cs@, i as int, pairs_view(assets@)),
        decreases cs.len() - i,
    {
        proof {
            reveal_strlit("/releases/download/");
        }
        let p = match find_lit(cs.as_slice(), "/releases/download/", i) {
            None => {
                assert(find_from(cs@, "/releases/download/"@, i as int) is None);
                assert(asset_scan(cs@, i as int, pairs_view(assets@)) == pairs_view(assets@));
                return assets;
            },
            Some(p) => p,
        };
        proof {
            lemma_find_from_props(cs@, "/releases/download/"@, i as int);
            crate::text::lemma_rfind_char_before_bounds(cs@, '"', p as int);
        }
        let q = match rfind_char(cs.as_slice(), '"', p) {
            Some(q) if q >= i => q,
            _ => {
                i = p + 19;
                continue;
            },
        };
        proof {
            lemma_find_from_props(cs@, seq!['"'], q + 1);
        }
        let e = match find_char_from(cs.as_slice(), '"', q + 1) {
            None => {
                return assets;
            },
            Some(e) => e,
        };
        assert(occurs_at(cs@, seq!['"'], e as int));
        let path = sub_vec(cs.as_slice(), q + 1, e);
        let name = last_segment_exec(path.as_slice());
        let marker = chars_of("/releases/download/");
        let zip = chars_of(".zip");
        let exe = chars_of(".exe");
        let keep = path.len() > 0 && path[0] == '/' && contains(path.as_slice(), marker.as_slice())
            && name.len() > 0 && (ends_with(name.as_slice(), zip.as_slice()) || ends_with(
            name.as_slice(),
            exe.as_slice(),
        ));
        if keep && !has_name_exec(&assets, name.as_slice()) {
            let mut url: Vec<char> = chars_of("https://github.com");
            append_chars(&mut url, path.as_slice());
            let ghost before = pairs_view(assets@);
            let entry = (string_of(name.as_slice()), string_of(url.as_slice()));
            assets.push(entry);
            assert(pairs_view(assets@) =~= before.push((name@, "https://github.com"@ + path@)));
        }
        i = e;
    }
}

// ---------------------------------------------------------------------------
// Choosing the package
// ---------------------------------------------------------------------------
/// A file name meant for the platform `token` (any name when the token is
/// empty).
pub open spec fn for_platform(name: Seq<char>, token: Seq<char>) -> bool {
    token.len() == 0 || contains_seq(name, token)
}

/// The preference tiers for update packages, best first: a platform `.exe`,
/// a platform `.zip` that is not a webview2 bundle, any platform `.zip`, and
/// on Windows the generic `handwrite-sim.exe` (any letter case).
pub open spec fn asset_tier(name: Seq<char>, token: Seq<char>, tier: int, windows: bool) -> bool {
    if tier == 0 {
        ends_with_seq(name, ".exe"@) && for_platform(name, token)
    } else if tier == 1 {
        ends_with_seq(name, ".zip"@) && for_platform(name, token) && !contains_seq(
            name,
            "webview2"@,
        )
    } else if tier == 2 {
        ends_with_seq(name, ".zip"@) && for_platform(name, token)
    } else {
        windows && spec_ascii_lower_seq(name) == "handwrite-sim.exe"@
    }
}

/// The index of the first asset of the given tier at or after `k`.
pub open spec fn first_in_tier(
    names: Seq<Seq<char>>,
    token: Seq<char>,
    tier: int,
    windows: bool,
    k: int,
) -> Option<int>
    decreases names.len() - k,
{
    if k < 0 || k >= names.len() {
        None
    } else if asset_tier(names[k], token, tier, windows) {
        Some(k)
    } else {
        first_in_tier(names, token, tier, windows, k + 1)
    }
}

/// The index of the package to download: the first asset of the best tier
/// that has one.
pub open spec fn chosen_asset(names: Seq<Seq<char>>, token: Seq<char>, windows: bool) -> Option<
    int,
> {
    match first_in_tier(names, token, 0, windows, 0) {
        Some(k) => Some(k),
        None => match first_in_tier(names, token, 1, windows, 0) {
            Some(k) => Some(k),
            None => match first_in_tier(names, token, 2, windows, 0) {
                Some(k) => Some(k),
                None => first_in_tier(names, token, 3, windows, 0),
            },
        },
    }
}

pub open spec fn asset_names(assets: Seq<(String, String, u64)>) -> Seq<Seq<char>> {
    assets.map_values(|a: (String, String, u64)| a.0@)
}

fn in_tier(name: &str, token: &str, tier: u8, windows: bool) -> (r: bool)
    ensures
        r == asset_tier(name@, token@, tier as int, windows),
{
    let n = chars_of(name);
    let t = chars_of(token);
    let platform = t.len() == 0 || contains(n.as_slice(), t.as_slice());
    let zip = chars_of(".zip");
    let exe = chars_of(".exe");
    if tier == 0 {
        ends_with(n.as_slice(), exe.as_slice()) && platform
    } else if tier == 1 {
        let wv = chars_of("webview2");
        ends_with(n.as_slice(), zip.as_slice()) && platform && !contains(
            n.as_slice(),
            wv.as_slice(),
        )
    } else if tier == 2 {
        ends_with(n.as_slice(), zip.as_slice()) && platform
    } else {
        let lower = ascii_lower_chars(n.as_slice());
        let generic = chars_of("handwrite-sim.exe");
        windows && seq_eq(lower.as_slice(), generic.as_slice())
    }
}

fn find_in_tier(assets: &[(String, String, u64)], token: &str, tier: u8, windows: bool) -> (r:
    Option<usize>)
    ensures
        r matches Some(k) ==> first_in_tier(asset_names(assets@), token@, tier as int, windows, 0)
            == Some(k as int) && k < assets.len(),
        r is None ==> first_in_tier(asset_names(assets@), token@, tier as int, windows, 0) is None,
{
    let ghost names = asset_names(assets@);
    let mut k: usize = 0;
    while k < assets.len()
        invariant
            k <= assets.len(),
            names == asset_names(assets@),
            first_in_tier(names, token@, tier as int, windows, 0) == first_in_tier(
                names,
                token@,
                tier as int,
                windows,
                k as int,
            ),
        decreases assets.len() - k,
    {
        assert(names[k as int] == assets@[k as int].0@);
        if in_tier(assets[k].0.as_str(), token, tier, windows) {
            return Some(k);
        }
        k += 1;
    }
    None
}

proof fn lemma_first_in_tier_props(names: Seq<Seq<char>>, token: Seq<char>, tier: int, windows: bool, k: int)
    requires
        0 <= k,
    ensures
        first_in_tier(names, token, tier, windows, k) matches Some(i) ==> k <= i < names.len()
            && asset_tier(names[i], token, tier, windows) && forall|j: int|
            k <= j < i ==> !asset_tier(#[trigger] names[j], token, tier, windows),
        first_in_tier(names, token, tier, windows, k) is None ==> forall|j: int|
            k <= j < names.len() ==> !asset_tier(#[trigger] names[j], token, tier, windows),
    decreases names.len() - k,
{
    if k < names.len() {
        lemma_first_in_tier_props(names, token, tier, windows, k + 1);
    }
}

/// A package name ending in `.exe` for the platform.
pub open spec fn platform_exe(name: Seq<char>, token: Seq<char>) -> bool {
    ends_with_seq(name, seq!['.', 'e', 'x', 'e']) && (token.len() == 0 || contains_seq(name, token))
}

/// A package name ending in `.zip` for the platform.
pub open spec fn platform_zip(name: Seq<char>, token: Seq<char>) -> bool {
    ends_with_seq(name, seq!['.', 'z', 'i', 'p']) && (token.len() == 0 || contains_seq(name, token))
}

/// How the update package is chosen: a platform `.exe` is preferred to
/// everything else, and then the first of them is taken; a platform `.zip`
/// comes next; the generic `handwrite-sim.exe` only on Windows; whatever is
/// chosen is a platform `.exe` or `.zip`, or on Windows the generic
/// program; and with none of these there is no package.
pub proof fn lemma_package_choice(names: Seq<Seq<char>>, token: Seq<char>, windows: bool)
    ensures
        chosen_asset(names, token, windows) matches Some(k) ==> 0 <= k < names.len() && (platform_exe(
            names[k],
            token,
        ) || platform_zip(names[k], token) || (windows && spec_ascii_lower_seq(names[k]) == seq![
            'h', 'a', 'n', 'd', 'w', 'r', 'i', 't', 'e', '-', 's', 'i', 'm', '.', 'e', 'x', 'e',
        ])),
        (exists|j: int| 0 <= j < names.len() && platform_exe(#[trigger] names[j], token)) ==> (
        chosen_asset(names, token, windows) matches Some(k) && platform_exe(names[k], token) && forall|
            j: int,
        | 0 <= j < k ==> !platform_exe(#[trigger] names[j], token)),
        (forall|j: int|
            0 <= j < names.len() ==> !platform_exe(#[trigger] names[j], token) && !platform_zip(
                names[j],
                token,
            )) && !windows ==> chosen_asset(names, token, windows) is None,
{
    reveal_strlit(".exe");
    reveal_strlit(".zip");
    reveal_strlit("handwrite-sim.exe");
    assert(".exe"@ =~= seq!['.', 'e', 'x', 'e']);
    assert(".zip"@ =~= seq!['.', 'z', 'i', 'p']);
    assert("handwrite-sim.exe"@ =~= seq![
        'h', 'a', 'n', 'd', 'w', 'r', 'i', 't', 'e', '-', 's', 'i', 'm', '.', 'e', 'x', 'e',
    ]);
    lemma_first_in_tier_props(names, token, 0, windows, 0);
    lemma_first_in_tier_props(names, token, 1, windows, 0);
    lemma_first_in_tier_props(names, token, 2, windows, 0);
    lemma_first_in_tier_props(names, token, 3, windows, 0);
    if exists|j: int| 0 <= j < names.len() && platform_exe(#[trigger] names[j], token) {
        let j = choose|j: int| 0 <= j < names.len() && platform_exe(#[trigger] names[j], token);
        assert(asset_tier(names[j], token, 0, windows));
    }
}

/// Picks the update package for the platform named `platform_token` (see
/// the tiers of `asset_tier`); `windows` enables the generic `.exe`.
pub fn select_platform_asset(
    assets: &[(String, String, u64)],
    platform_token: &str,
    windows: bool,
) -> (r: Option<(String, String, u64)>)
    ensures
        match chosen_asset(asset_names(assets@), platform_token@, windows) {
            Some(k) => r == Some(assets@[k]),
            None => r is None,
        },
{
    match find_in_tier(assets, platform_token, 0, windows) {
        Some(k) => Some(pick_asset(assets, k)),
        None => match find_in_tier(assets, platform_token, 1, windows) {
            Some(k) => Some(pick_asset(assets, k)),
            None => match find_in_tier(assets, platform_token, 2, windows) {
                Some(k) => Some(pick_asset(assets, k)),
                None => match find_in_tier(assets, platform_token, 3, windows) {
                    Some(k) => Some(pick_asset(assets, k)),
                    None => None,
                },
            },
        },
    }
}

fn pick_asset(assets: &[(String, String, u64)], k: usize) -> (r: (String, String, u64))
    requires
        k < assets.len(),
    ensures
        r == assets@[k as int],
{
    let a = &assets[k];
    (a.0.clone(), a.1.clone(), a.2)
}

// ---------------------------------------------------------------------------
// Replacement script
// ---------------------------------------------------------------------------
/// `if exist "<p>" del /f /q "<p>" >nul` and a line break.
pub open spec fn del_line(p: Seq<char>) -> Seq<char> {
    "if exist \""@ + p + "\" del /f /q \""@ + p + "\" >nul\r\n"@
}

/// `if exist "<p>" rmdir /s /q "<p>" >nul` and a line break.
pub open spec fn rmdir_line(p: Seq<char>) -> Seq<char> {
    "if exist \""@ + p + "\" rmdir /s /q \""@ + p + "\" >nul\r\n"@
}

pub open spec fn opt_line(p: Option<Seq<char>>, rmdir: bool) -> Seq<char> {
    match p {
        Some(q) => if rmdir { rmdir_line(q) } else { del_line(q) },
        None => Seq::empty(),
    }
}

/// The cleanup block run after the copy, successful or not.
pub open spec fn cleanup_block(
    downloaded: Seq<char>,
    extract_dir: Option<Seq<char>>,
    sleep_vbs: Seq<char>,
    launcher_vbs: Option<Seq<char>>,
) -> Seq<char> {
    del_line(downloaded) + opt_line(extract_dir, true) + del_line(sleep_vbs) + opt_line(
        launcher_vbs,
        false,
    )
}

/// The batch script that waits (through a window-less script) until the
/// running program can be overwritten, copies the new program over it, giving up
/// after ten failed copies, cleans up the downloaded files and the helper scripts,
/// restarts the program on success, and deletes itself.
pub open spec fn spec_updater_bat(
    new_exe: Seq<char>,
    current_exe: Seq<char>,
    downloaded: Seq<char>,
    extract_dir: Option<Seq<char>>,
    sleep_vbs: Seq<char>,
    launcher_vbs: Option<Seq<char>>,
) -> Seq<char> {
    let cleanup = cleanup_block(downloaded, extract_dir, sleep_vbs, launcher_vbs);
    "@echo off\r\nchcp 65001 >nul\r\nset /a tries=0\r\n:copyloop\r\n"@ + "wscript //B //Nologo \""@
        + sleep_vbs + "\" >nul 2>&1\r\n"@ + "copy /y \""@ + new_exe + "\" \""@ + current_exe
        + "\" >nul 2>&1 && goto copied\r\nset /a tries+=1\r\nif %tries% geq 10 goto copyfailed\r\ngoto copyloop\r\n:copyfailed\r\n"@
        + cleanup + "(goto) 2>nul & del \"%~f0\"\r\nexit /b 1\r\n:copied\r\n"@ + cleanup
        + "start \"\" \""@ + current_exe + "\"\r\n(goto) 2>nul & del \"%~f0\"\r\n"@
}

pub open spec fn opt_str_view(p: Option<&str>) -> Option<Seq<char>> {
    match p {
        Some(q) => Some(q@),
        None => None,
    }
}

fn push_opt_line(out: &mut String, p: Option<&str>, rmdir: bool)
    ensures
        final(out)@ == old(out)@ + opt_line(opt_str_view(p), rmdir),
{
    match p {
        Some(q) => {
            push_str(out, "if exist \"");
            push_str(out, q);
            if rmdir {
                push_str(out, "\" rmdir /s /q \"");
            } else {
                push_str(out, "\" del /f /q \"");
            }
            push_str(out, q);
            push_str(out, "\" >nul\r\n");
        },
        None => {
            assert(old(out)@ + Seq::<char>::empty() =~= old(out)@);
        },
    }
}

fn push_cleanup(
    out: &mut String,
    downloaded: &str,
    extract_dir: Option<&str>,
    sleep_vbs: &str,
    launcher_vbs: Option<&str>,
)
    ensures
        final(out)@ == old(out)@ + cleanup_block(
            downloaded@,
            opt_str_view(extract_dir),
            sleep_vbs@,
            opt_str_view(launcher_vbs),
        ),
{
    push_opt_line(out, Some(downloaded), false);
    push_opt_line(out, extract_dir, true);
    push_opt_line(out, Some(sleep_vbs), false);
    push_opt_line(out, launcher_vbs, false);
    assert(final(out)@ =~= old(out)@ + cleanup_block(
        downloaded@,
        opt_str_view(extract_dir),
        sleep_vbs@,
        opt_str_view(launcher_vbs),
    ));
}

/// Writes the batch script that replaces the running program by the new
/// one and restarts it.
pub fn build_updater_bat_content(
    new_exe: &str,
    current_exe: &str,
    downloaded_file: &str,
    extract_dir: Option<&str>,
    sleep_vbs: &str,
    launcher_vbs: Option<&str>,
) -> (r: String)
    ensures
        r@ == spec_updater_bat(
            new_exe@,
            current_exe@,
            downloaded_file@,
            opt_str_view(extract_dir),
            sleep_vbs@,
            opt_str_view(launcher_vbs),
        ),
{
    let mut out = String::new();
    push_str(&mut out, "@echo off\r\nchcp 65001 >nul\r\nset /a tries=0\r\n:copyloop\r\n");
    push_str(&mut out, "wscript //B //Nologo \"");
    push_str(&mut out, sleep_vbs);
    push_str(&mut out, "\" >nul 2>&1\r\n");
    push_str(&mut out, "copy /y \"");
    push_str(&mut out, new_exe);
    push_str(&mut out, "\" \"");
    push_str(&mut out, current_exe);
    push_str(
        &mut out,
        "\" >nul 2>&1 && goto copied\r\nset /a tries+=1\r\nif %tries% geq 10 goto copyfailed\r\ngoto copyloop\r\n:copyfailed\r\n",
    );
    push_cleanup(&mut out, downloaded_file, extract_dir, sleep_vbs, launcher_vbs);
    push_str(&mut out, "(goto) 2>nul & del \"%~f0\"\r\nexit /b 1\r\n:copied\r\n");
    push_cleanup(&mut out, downloaded_file, extract_dir, sleep_vbs, launcher_vbs);
    push_str(&mut out, "start \"\" \"");
    push_str(&mut out, current_exe);
    push_str(&mut out, "\"\r\n(goto) 2>nul & del \"%~f0\"\r\n");
    assert(out@ =~= spec_updater_bat(
        new_exe@,
        current_exe@,
        downloaded_file@,
        opt_str_view(extract_dir),
        sleep_vbs@,
        opt_str_view(launcher_vbs),
    ));
    out
}

} // verus!
