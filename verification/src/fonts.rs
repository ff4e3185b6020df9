//! System fonts offered in the font picker: friendly names for well-known
//! font files, a preference order, and the sorted, de-duplicated list.

use vstd::prelude::*;
use crate::text::{
    chars_of, str_eq, seq_eq, contains_seq, starts_with_seq, contains, starts_with, push_str, string_of,
    spec_ascii_lower_seq, ascii_lower_chars,
};

verus! {

/// Known font files (lower-case file name) with their Chinese and English
/// names.
pub open spec fn font_table() -> Seq<(Seq<char>, Seq<char>, Seq<char>)> {
    seq![
        ("msyh.ttc"@, "微软雅黑"@, "Microsoft YaHei"@),
        ("msyhl.ttc"@, "微软雅黑 Light"@, "Microsoft YaHei Light"@),
        ("msyhbd.ttc"@, "微软雅黑 Bold"@, "Microsoft YaHei Bold"@),
        ("simsun.ttc"@, "宋体 / 新宋体"@, "SimSun"@),
        ("simsunb.ttf"@, "宋体扩展"@, "SimSun-ExtB"@),
        ("simhei.ttf"@, "黑体"@, "SimHei"@),
        ("simkai.ttf"@, "楷体"@, "KaiTi"@),
        ("kaiti.ttf"@, "楷体"@, "KaiTi"@),
        ("simfang.ttf"@, "仿宋"@, "FangSong"@),
        ("fangsong.ttf"@, "仿宋"@, "FangSong"@),
        ("stxingka.ttf"@, "华文行楷"@, "STXingkai"@),
        ("stkaiti.ttf"@, "华文楷体"@, "STKaiti"@),
        ("stsong.ttf"@, "华文宋体"@, "STSong"@),
        ("stfangso.ttf"@, "华文仿宋"@, "STFangsong"@),
        ("stxihei.ttf"@, "华文细黑"@, "STXihei"@),
        ("stzhongh.ttf"@, "华文中宋"@, "STZhongsong"@),
        ("deng.ttf"@, "等线"@, "DengXian"@),
        ("dengb.ttf"@, "等线 Bold"@, "DengXian Bold"@),
        ("dengl.ttf"@, "等线 Light"@, "DengXian Light"@),
        ("simyou.ttf"@, "幼圆"@, "YouYuan"@),
        ("youyuan.ttf"@, "幼圆"@, "YouYuan"@),
        ("simli.ttf"@, "隶书"@, "LiSu"@),
        ("lishu.ttf"@, "隶书"@, "LiSu"@),
        ("stcaiyun.ttf"@, "华文彩云"@, "STCaiyun"@),
        ("sthupo.ttf"@, "华文琥珀"@, "STHupo"@),
        ("stliti.ttf"@, "华文隶书"@, "STLiti"@),
        ("stxinwei.ttf"@, "华文新魏"@, "STXinwei"@),
        ("fzstk.ttf"@, "方正舒体"@, "FZShuTi"@),
        ("fzytk.ttf"@, "方正姚体"@, "FZYaoTi"@),
        ("arial.ttf"@, "Arial"@, "Arial"@),
        ("arialbd.ttf"@, "Arial Bold"@, "Arial Bold"@),
        ("ariali.ttf"@, "Arial Italic"@, "Arial Italic"@),
        ("arialbi.ttf"@, "Arial Bold Italic"@, "Arial Bold Italic"@),
        ("times.ttf"@, "Times New Roman"@, "Times New Roman"@),
        ("timesbd.ttf"@, "Times New Roman Bold"@, "Times New Roman Bold"@),
        ("timesi.ttf"@, "Times New Roman Italic"@, "Times New Roman Italic"@),
        ("timesbi.ttf"@, "Times New Roman Bold Italic"@, "Times New Roman Bold Italic"@),
        ("calibri.ttf"@, "Calibri"@, "Calibri"@),
        ("calibrib.ttf"@, "Calibri Bold"@, "Calibri Bold"@),
        ("calibrii.ttf"@, "Calibri Italic"@, "Calibri Italic"@),
        ("calibriz.ttf"@, "Calibri Bold Italic"@, "Calibri Bold Italic"@),
        ("calibril.ttf"@, "Calibri Light"@, "Calibri Light"@),
        ("calibrili.ttf"@, "Calibri Light Italic"@, "Calibri Light Italic"@),
        ("cour.ttf"@, "Courier New"@, "Courier New"@),
        ("courbd.ttf"@, "Courier New Bold"@, "Courier New Bold"@),
        ("couri.ttf"@, "Courier New Italic"@, "Courier New Italic"@),
        ("courbi.ttf"@, "Courier New Bold Italic"@, "Courier New Bold Italic"@),
        ("tahoma.ttf"@, "Tahoma"@, "Tahoma"@),
        ("tahomabd.ttf"@, "Tahoma Bold"@, "Tahoma Bold"@),
        ("verdana.ttf"@, "Verdana"@, "Verdana"@),
        ("verdanab.ttf"@, "Verdana Bold"@, "Verdana Bold"@),
        ("verdanai.ttf"@, "Verdana Italic"@, "Verdana Italic"@),
        ("verdanaz.ttf"@, "Verdana Bold Italic"@, "Verdana Bold Italic"@),
        ("segoeui.ttf"@, "Segoe UI"@, "Segoe UI"@),
        ("segoeuib.ttf"@, "Segoe UI Bold"@, "Segoe UI Bold"@),
        ("segoeuii.ttf"@, "Segoe UI Italic"@, "Segoe UI Italic"@),
        ("segoeuiz.ttf"@, "Segoe UI Bold Italic"@, "Segoe UI Bold Italic"@),
        ("segoeuil.ttf"@, "Segoe UI Light"@, "Segoe UI Light"@),
        ("segoeuisb.ttf"@, "Segoe UI Semibold"@, "Segoe UI Semibold"@),
        ("segoeuisz.ttf"@, "Segoe UI Semibold Italic"@, "Segoe UI Semibold Italic"@),
        ("segoeuisl.ttf"@, "Segoe UI Semilight"@, "Segoe UI Semilight"@),
        ("segoeuibl.ttf"@, "Segoe UI Black"@, "Segoe UI Black"@),
        ("pingfang.ttc"@, "苹方"@, "PingFang SC"@),
        ("songti.ttc"@, "宋体"@, "Songti SC"@),
        ("kaiti.ttc"@, "楷体"@, "Kaiti SC"@),
        ("heiti.ttc"@, "黑体"@, "Heiti SC"@),
        ("yuanti.ttc"@, "圆体"@, "Yuanti SC"@),
        ("stheitilight.ttc"@, "华文细黑"@, "STHeiti Light"@),
        ("stheitimedium.ttc"@, "华文黑体"@, "STHeiti Medium"@),
        ("hiraginosansgb.ttc"@, "冬青黑体"@, "Hiragino Sans GB"@),
        ("notosanscjk-regular.ttc"@, "思源黑体"@, "Noto Sans SC"@),
        ("notosanscjk.ttc"@, "思源黑体"@, "Noto Sans SC"@),
        ("notosanssc-regular.otf"@, "思源黑体"@, "Noto Sans SC"@),
        ("notosanssc-regular.ttf"@, "思源黑体"@, "Noto Sans SC"@),
        ("notoserifcjk-regular.ttc"@, "思源宋体"@, "Noto Serif SC"@),
        ("notoserifcjk.ttc"@, "思源宋体"@, "Noto Serif SC"@),
        ("notoserifsc-regular.otf"@, "思源宋体"@, "Noto Serif SC"@),
        ("notoserifsc-regular.ttf"@, "思源宋体"@, "Noto Serif SC"@),
        ("wenquanyimicrohei.ttf"@, "文泉驿微米黑"@, "WenQuanYi Micro Hei"@),
        ("wqy-microhei.ttc"@, "文泉驿微米黑"@, "WenQuanYi Micro Hei"@),
        ("wenquanyizenhei.ttf"@, "文泉驿正黑"@, "WenQuanYi Zen Hei"@),
        ("wqy-zenhei.ttc"@, "文泉驿正黑"@, "WenQuanYi Zen Hei"@)
    ]
}

/// Position of a file name in the table of known fonts.
pub open spec fn table_index(t: Seq<(Seq<char>, Seq<char>, Seq<char>)>, name: Seq<char>, k: int) -> Option<int>
    decreases t.len() - k,
{
    if k < 0 || k >= t.len() {
        None
    } else if t[k].0 == name {
        Some(k)
    } else {
        table_index(t, name, k + 1)
    }
}

/// The (Chinese, English) names of a well-known font file, by its
/// lower-case file name.
pub fn map_known_font(file_name_lower: &str) -> (r: Option<(&'static str, &'static str)>)
    ensures
        match table_index(font_table(), file_name_lower@, 0) {
            Some(k) => r matches Some((zh, en)) && zh@ == font_table()[k].1 && en@ == font_table()[k].2,
            None => r is None,
        },
{
    let table: [(&'static str, &'static str, &'static str); 82] = [
        ("msyh.ttc", "微软雅黑", "Microsoft YaHei"),
        ("msyhl.ttc", "微软雅黑 Light", "Microsoft YaHei Light"),
        ("msyhbd.ttc", "微软雅黑 Bold", "Microsoft YaHei Bold"),
        ("simsun.ttc", "宋体 / 新宋体", "SimSun"),
        ("simsunb.ttf", "宋体扩展", "SimSun-ExtB"),
        ("simhei.ttf", "黑体", "SimHei"),
        ("simkai.ttf", "楷体", "KaiTi"),
        ("kaiti.ttf", "楷体", "KaiTi"),
        ("simfang.ttf", "仿宋", "FangSong"),
        ("fangsong.ttf", "仿宋", "FangSong"),
        ("stxingka.ttf", "华文行楷", "STXingkai"),
        ("stkaiti.ttf", "华文楷体", "STKaiti"),
        ("stsong.ttf", "华文宋体", "STSong"),
        ("stfangso.ttf", "华文仿宋", "STFangsong"),
        ("stxihei.ttf", "华文细黑", "STXihei"),
        ("stzhongh.ttf", "华文中宋", "STZhongsong"),
        ("deng.ttf", "等线", "DengXian"),
        ("dengb.ttf", "等线 Bold", "DengXian Bold"),
        ("dengl.ttf", "等线 Light", "DengXian Light"),
        ("simyou.ttf", "幼圆", "YouYuan"),
        ("youyuan.ttf", "幼圆", "YouYuan"),
        ("simli.ttf", "隶书", "LiSu"),
        ("lishu.ttf", "隶书", "LiSu"),
        ("stcaiyun.ttf", "华文彩云", "STCaiyun"),
        ("sthupo.ttf", "华文琥珀", "STHupo"),
        ("stliti.ttf", "华文隶书", "STLiti"),
        ("stxinwei.ttf", "华文新魏", "STXinwei"),
        ("fzstk.ttf", "方正舒体", "FZShuTi"),
        ("fzytk.ttf", "方正姚体", "FZYaoTi"),
        ("arial.ttf", "Arial", "Arial"),
        ("arialbd.ttf", "Arial Bold", "Arial Bold"),
        ("ariali.ttf", "Arial Italic", "Arial Italic"),
        ("arialbi.ttf", "Arial Bold Italic", "Arial Bold Italic"),
        ("times.ttf", "Times New Roman", "Times New Roman"),
        ("timesbd.ttf", "Times New Roman Bold", "Times New Roman Bold"),
        ("timesi.ttf", "Times New Roman Italic", "Times New Roman Italic"),
        ("timesbi.ttf", "Times New Roman Bold Italic", "Times New Roman Bold Italic"),
        ("calibri.ttf", "Calibri", "Calibri"),
        ("calibrib.ttf", "Calibri Bold", "Calibri Bold"),
        ("calibrii.ttf", "Calibri Italic", "Calibri Italic"),
        ("calibriz.ttf", "Calibri Bold Italic", "Calibri Bold Italic"),
        ("calibril.ttf", "Calibri Light", "Calibri Light"),
        ("calibrili.ttf", "Calibri Light Italic", "Calibri Light Italic"),
        ("cour.ttf", "Courier New", "Courier New"),
        ("courbd.ttf", "Courier New Bold", "Courier New Bold"),
        ("couri.ttf", "Courier New Italic", "Courier New Italic"),
        ("courbi.ttf", "Courier New Bold Italic", "Courier New Bold Italic"),
        ("tahoma.ttf", "Tahoma", "Tahoma"),
        ("tahomabd.ttf", "Tahoma Bold", "Tahoma Bold"),
        ("verdana.ttf", "Verdana", "Verdana"),
        ("verdanab.ttf", "Verdana Bold", "Verdana Bold"),
        ("verdanai.ttf", "Verdana Italic", "Verdana Italic"),
        ("verdanaz.ttf", "Verdana Bold Italic", "Verdana Bold Italic"),
        ("segoeui.ttf", "Segoe UI", "Segoe UI"),
        ("segoeuib.ttf", "Segoe UI Bold", "Segoe UI Bold"),
        ("segoeuii.ttf", "Segoe UI Italic", "Segoe UI Italic"),
        ("segoeuiz.ttf", "Segoe UI Bold Italic", "Segoe UI Bold Italic"),
        ("segoeuil.ttf", "Segoe UI Light", "Segoe UI Light"),
        ("segoeuisb.ttf", "Segoe UI Semibold", "Segoe UI Semibold"),
        ("segoeuisz.ttf", "Segoe UI Semibold Italic", "Segoe UI Semibold Italic"),
        ("segoeuisl.ttf", "Segoe UI Semilight", "Segoe UI Semilight"),
        ("segoeuibl.ttf", "Segoe UI Black", "Segoe UI Black"),
        ("pingfang.ttc", "苹方", "PingFang SC"),
        ("songti.ttc", "宋体", "Songti SC"),
        ("kaiti.ttc", "楷体", "Kaiti SC"),
        ("heiti.ttc", "黑体", "Heiti SC"),
        ("yuanti.ttc", "圆体", "Yuanti SC"),
        ("stheitilight.ttc", "华文细黑", "STHeiti Light"),
        ("stheitimedium.ttc", "华文黑体", "STHeiti Medium"),
        ("hiraginosansgb.ttc", "冬青黑体", "Hiragino Sans GB"),
        ("notosanscjk-regular.ttc", "思源黑体", "Noto Sans SC"),
        ("notosanscjk.ttc", "思源黑体", "Noto Sans SC"),
        ("notosanssc-regular.otf", "思源黑体", "Noto Sans SC"),
        ("notosanssc-regular.ttf", "思源黑体", "Noto Sans SC"),
        ("notoserifcjk-regular.ttc", "思源宋体", "Noto Serif SC"),
        ("notoserifcjk.ttc", "思源宋体", "Noto Serif SC"),
        ("notoserifsc-regular.otf", "思源宋体", "Noto Serif SC"),
        ("notoserifsc-regular.ttf", "思源宋体", "Noto Serif SC"),
        ("wenquanyimicrohei.ttf", "文泉驿微米黑", "WenQuanYi Micro Hei"),
        ("wqy-microhei.ttc", "文泉驿微米黑", "WenQuanYi Micro Hei"),
        ("wenquanyizenhei.ttf", "文泉驿正黑", "WenQuanYi Zen Hei"),
        ("wqy-zenhei.ttc", "文泉驿正黑", "WenQuanYi Zen Hei")
    ];
    let ghost t = font_table();
    assert(table@.map_values(|e: (&str, &str, &str)| (e.0@, e.1@, e.2@)) =~= t);
    let mut k: usize = 0;
    while k < table.len()
        invariant
            k <= table.len(),
            t == font_table(),
            table@.map_values(|e: (&str, &str, &str)| (e.0@, e.1@, e.2@)) == t,
            table_index(t, file_name_lower@, 0) == table_index(t, file_name_lower@, k as int),
        decreases table.len() - k,
    {
        let e = table[k];
        assert(t[k as int] == (e.0@, e.1@, e.2@));
        if str_eq(e.0, file_name_lower) {
            return Some((e.1, e.2));
        }
        k += 1;
    }
    None
}

/// Unicode lower-casing of a text (`str::to_lowercase`).
pub uninterp spec fn unicode_lower(s: Seq<char>) -> Seq<char>;

/// An ASCII character in lower case.
pub open spec fn ascii_lower(c: char) -> char {
    if 'A' <= c <= 'Z' {
        ((c as u32) + 32) as char
    } else {
        c
    }
}

/// A text all of whose characters are ASCII.
pub open spec fn all_ascii(s: Seq<char>) -> bool {
    forall|i: int| 0 <= i < s.len() ==> (s[i] as u32) < 128
}

/// `str::to_lowercase`: Unicode lower-casing, which on ASCII text lowers the
/// letters `A` to `Z` one by one.
#[verifier::external_body]
pub(crate) fn to_lowercase(s: &str) -> (r: String)
    ensures
        r@ == unicode_lower(s@),
        all_ascii(s@) ==> r@ == s@.map_values(|c: char| ascii_lower(c)),
{
    s.to_lowercase()
}

/// Preference of a font in the picker (smaller first): Microsoft YaHei,
/// Song, Hei/PingFang, Kai, FangSong, Xingkai, other STxxx fonts, DengXian,
/// Noto/WenQuanYi, common Latin fonts, then the rest. `family_lower` is the
/// lower-cased family name, `file` the lower-cased file name.
pub open spec fn spec_font_priority(family_lower: Seq<char>, file: Seq<char>) -> u32 {
    let f = family_lower;
    if contains_seq(f, "微软雅黑"@) || starts_with_seq(file, "msyh"@) {
        10
    } else if contains_seq(f, "宋体"@) || starts_with_seq(file, "simsun"@) || starts_with_seq(
        file,
        "songti"@,
    ) {
        20
    } else if contains_seq(f, "黑体"@) || starts_with_seq(file, "simhei"@) || starts_with_seq(
        file,
        "heiti"@,
    ) || contains_seq(f, "苹方"@) || starts_with_seq(file, "pingfang"@) {
        30
    } else if contains_seq(f, "楷体"@) || starts_with_seq(file, "simkai"@) || starts_with_seq(
        file,
        "kaiti"@,
    ) {
        40
    } else if contains_seq(f, "仿宋"@) || starts_with_seq(file, "simfang"@) || starts_with_seq(
        file,
        "fangsong"@,
    ) {
        50
    } else if contains_seq(f, "行楷"@) || starts_with_seq(file, "stxingka"@) {
        60
    } else if contains_seq(f, "华文"@) || starts_with_seq(file, "st"@) {
        70
    } else if contains_seq(f, "等线"@) || starts_with_seq(file, "deng"@) {
        80
    } else if contains_seq(f, "思源"@) || contains_seq(file, "noto"@) || contains_seq(f, "文泉驿"@)
        || starts_with_seq(file, "wqy"@) {
        90
    } else if contains_seq(f, "arial"@) || contains_seq(f, "times"@) || contains_seq(f, "calibri"@)
        || contains_seq(f, "segoe"@) || contains_seq(f, "tahoma"@) || contains_seq(f, "verdana"@)
        || contains_seq(f, "courier"@) {
        150
    } else {
        200
    }
}

fn has(s: &[char], lit: &str) -> (r: bool)
    ensures
        r == contains_seq(s@, lit@),
{
    let l = chars_of(lit);
    contains(s, l.as_slice())
}

fn begins(s: &[char], lit: &str) -> (r: bool)
    ensures
        r == starts_with_seq(s@, lit@),
{
    let l = chars_of(lit);
    starts_with(s, l.as_slice())
}

/// Sort rank of a font (smaller first) from its family and lower-case file
/// name.
pub fn font_priority(family: &str, file_name_lower: &str) -> (r: u32)
    ensures
        r == spec_font_priority(unicode_lower(family@), file_name_lower@),
{
    let fl = to_lowercase(family);
    let f = chars_of(fl.as_str());
    let file = chars_of(file_name_lower);
    let (f, file) = (f.as_slice(), file.as_slice());
    if has(f, "微软雅黑") || begins(file, "msyh") {
        10
    } else if has(f, "宋体") || begins(file, "simsun") || begins(file, "songti") {
        20
    } else if has(f, "黑体") || begins(file, "simhei") || begins(file, "heiti") || has(f, "苹方")
        || begins(file, "pingfang") {
        30
    } else if has(f, "楷体") || begins(file, "simkai") || begins(file, "kaiti") {
        40
    } else if has(f, "仿宋") || begins(file, "simfang") || begins(file, "fangsong") {
        50
    } else if has(f, "行楷") || begins(file, "stxingka") {
        60
    } else if has(f, "华文") || begins(file, "st") {
        70
    } else if has(f, "等线") || begins(file, "deng") {
        80
    } else if has(f, "思源") || has(file, "noto") || has(f, "文泉驿") || begins(file, "wqy") {
        90
    } else if has(f, "arial") || has(f, "times") || has(f, "calibri") || has(f, "segoe") || has(
        f,
        "tahoma",
    ) || has(f, "verdana") || has(f, "courier") {
        150
    } else {
        200
    }
}

// ---------------------------------------------------------------------------
// The font list
// ---------------------------------------------------------------------------
/// A font file found on the system: its full path, file name and file stem
/// (the stem falls back to the file name).
#[derive(Debug, Clone)]
pub struct FontFile {
    pub path: String,
    pub file_name: String,
    pub stem: String,
}

/// A font offered in the picker: display name, family and file path.
#[derive(Debug, Clone, PartialEq, Eq)]
pub struct SystemFontItem {
    pub name: String,
    pub family: String,
    pub path: String,
}

/// A font file extension: `ttf`, `otf` or `ttc`, in any ASCII letter case.
pub open spec fn spec_is_font_extension(ext: Seq<char>) -> bool {
    let e = spec_ascii_lower_seq(ext);
    e == "ttf"@ || e == "otf"@ || e == "ttc"@
}

/// Whether a file with this extension is offered as a font.
pub fn is_font_extension(ext: &str) -> (r: bool)
    ensures
        r == spec_is_font_extension(ext@),
{
    let cs = chars_of(ext);
    let lower = ascii_lower_chars(cs.as_slice());
    let a = chars_of("ttf");
    let b = chars_of("otf");
    let c = chars_of("ttc");
    seq_eq(lower.as_slice(), a.as_slice()) || seq_eq(lower.as_slice(), b.as_slice()) || seq_eq(
        lower.as_slice(),
        c.as_slice(),
    )
}

/// A path that is one plain file name: not empty, not `.` or `..`, with no
/// `/` or `\\` and no `:` as its second character (which could start a drive
/// prefix). Every platform's path syntax reads such a path as one normal
/// component, the file name itself.
pub open spec fn plain_name(p: Seq<char>) -> bool {
    &&& p.len() > 0
    &&& p != seq!['.']
    &&& p != seq!['.', '.']
    &&& !(p.len() >= 2 && p[1] == ':')
    &&& forall|i: int| 0 <= i < p.len() ==> p[i] != '/' && p[i] != '\\'
}

/// Position of the last `.` among the first `k` characters of `s`.
pub open spec fn last_dot(s: Seq<char>, k: int) -> Option<int>
    decreases k,
{
    if k <= 0 || k > s.len() {
        None
    } else if s[k - 1] == '.' {
        Some(k - 1)
    } else {
        last_dot(s, k - 1)
    }
}

/// The last `.` found lies among the first `k` characters and is a `.`.
pub proof fn lemma_last_dot(s: Seq<char>, k: int)
    ensures
        last_dot(s, k) matches Some(i) ==> 0 <= i < k && i < s.len() && s[i] == '.',
    decreases k,
{
    if 0 < k <= s.len() && s[k - 1] != '.' {
        lemma_last_dot(s, k - 1);
    }
}

/// The stem of a file name as std documents it: the part before the last
/// `.`, or the whole name when it has no `.` or only a leading one.
pub open spec fn std_stem(name: Seq<char>) -> Seq<char> {
    match last_dot(name, name.len() as int) {
        Some(i) => if i > 0 { name.take(i) } else { name },
        None => name,
    }
}

/// The extension of a file name as std documents it: the part after the
/// last `.`, none when it has no `.` or only a leading one.
pub open spec fn std_extension(name: Seq<char>) -> Option<Seq<char>> {
    match last_dot(name, name.len() as int) {
        Some(i) => if i > 0 { Some(name.skip(i + 1)) } else { None },
        None => None,
    }
}

/// `Path::file_name`, as text. Which part of the path is the file name
/// depends on the platform's path syntax; the result is a piece of `path`,
/// and a plain file name is its own file name.
#[verifier::external_body]
fn path_file_name(path: &str) -> (r: Option<String>)
    ensures
        r matches Some(n) ==> contains_seq(path@, n@),
        plain_name(path@) ==> match r {
            Some(n) => n@ == path@,
            None => false,
        },
{
    std::path::Path::new(path).file_name().map(|s| s.to_string_lossy().into_owned())
}

/// `Path::file_stem`, as text. It depends on the platform's path syntax; the
/// result is a piece of `path`, and for a plain file name it is the stem std
/// documents (see [`std_stem`]).
#[verifier::external_body]
pub(crate) fn path_file_stem(path: &str) -> (r: Option<String>)
    ensures
        r matches Some(n) ==> contains_seq(path@, n@),
        plain_name(path@) ==> match r {
            Some(n) => n@ == std_stem(path@),
            None => false,
        },
{
    std::path::Path::new(path).file_stem().map(|s| s.to_string_lossy().into_owned())
}

/// The names of a font file path: its file name (empty if it has none) and
/// its stem (the file name if it has none).
pub fn font_file_of(path: &str) -> (r: FontFile)
    ensures
        r.path@ == path@,
        r.file_name@.len() == 0 || contains_seq(path@, r.file_name@),
        r.stem@ == r.file_name@ || contains_seq(path@, r.stem@),
        plain_name(path@) ==> r.file_name@ == path@ && r.stem@ == std_stem(path@),
{
    let file_name = match path_file_name(path) {
        Some(n) => n,
        None => String::new(),
    };
    let stem = match path_file_stem(path) {
        Some(s) => s,
        None => file_name.clone(),
    };
    FontFile { path: path.to_owned(), file_name, stem }
}

/// Display name and family of a font file: well-known files get their
/// Chinese name with the English one in parentheses (or just the name when
/// both agree), others are named after their stem.
pub open spec fn font_names(f: FontFile) -> (Seq<char>, Seq<char>) {
    match table_index(font_table(), unicode_lower(f.file_name@), 0) {
        Some(k) => {
            let zh = font_table()[k].1;
            let en = font_table()[k].2;
            if zh == en {
                (en, en)
            } else {
                (zh + " ("@ + en + ")"@, zh)
            }
        },
        None => (f.stem@, f.stem@),
    }
}

/// The sort key of a font: its rank, lower-cased display name, and path.
pub open spec fn font_key(f: FontFile) -> (u32, Seq<char>, Seq<char>) {
    let names = font_names(f);
    (
        spec_font_priority(unicode_lower(names.1), unicode_lower(f.file_name@)),
        unicode_lower(names.0),
        f.path@,
    )
}

/// Code-point (and so byte-wise) lexicographic order of texts.
pub open spec fn lex_lt(a: Seq<char>, b: Seq<char>) -> bool
    decreases a.len(),
{
    if a.len() == 0 {
        b.len() > 0
    } else if b.len() == 0 {
        false
    } else if (a[0] as u32) < (b[0] as u32) {
        true
    } else if (a[0] as u32) > (b[0] as u32) {
        false
    } else {
        lex_lt(a.drop_first(), b.drop_first())
    }
}

/// Font order: by rank, then lower-cased name, then path.
pub open spec fn key_lt(a: (u32, Seq<char>, Seq<char>), b: (u32, Seq<char>, Seq<char>)) -> bool {
    a.0 < b.0 || (a.0 == b.0 && (lex_lt(a.1, b.1) || (a.1 == b.1 && lex_lt(a.2, b.2))))
}

pub type FontRecord = ((u32, Seq<char>, Seq<char>), (Seq<char>, Seq<char>, Seq<char>));

pub open spec fn record_of(f: FontFile) -> FontRecord {
    (font_key(f), (font_names(f).0, font_names(f).1, f.path@))
}

/// The files whose lower-cased path was not met before (among `seen` and
/// earlier files), in order.
pub open spec fn unique_paths(files: Seq<FontFile>, i: int, seen: Seq<Seq<char>>) -> Seq<FontFile>
    decreases files.len() - i,
{
    if i < 0 || i >= files.len() {
        Seq::empty()
    } else {
        let key = unicode_lower(files[i].path@);
        if seen.contains(key) {
            unique_paths(files, i + 1, seen)
        } else {
            seq![files[i]] + unique_paths(files, i + 1, seen.push(key))
        }
    }
}

/// Where a record goes in a sorted list: before the first record it sorts
/// strictly before (after all equal ones, keeping the sort stable).
pub open spec fn insert_pos(s: Seq<FontRecord>, x: FontRecord, k: int) -> int
    decreases s.len() - k,
{
    if k < 0 || k >= s.len() {
        s.len() as int
    } else if key_lt(x.0, s[k].0) {
        k
    } else {
        insert_pos(s, x, k + 1)
    }
}

pub open spec fn insert_sorted(s: Seq<FontRecord>, x: FontRecord) -> Seq<FontRecord> {
    let p = insert_pos(s, x, 0);
    s.take(p).push(x) + s.skip(p)
}

/// Stable sort by insertion.
pub open spec fn sort_records(s: Seq<FontRecord>) -> Seq<FontRecord>
    decreases s.len(),
{
    if s.len() == 0 {
        Seq::empty()
    } else {
        insert_sorted(sort_records(s.drop_last()), s.last())
    }
}

/// The font list: de-duplicated by lower-cased path (first one kept), named,
/// and sorted by rank, lower-cased name and path.
pub open spec fn spec_font_list(files: Seq<FontFile>) -> Seq<(Seq<char>, Seq<char>, Seq<char>)> {
    sort_records(unique_paths(files, 0, Seq::empty()).map_values(|f: FontFile| record_of(f))).map_values(
        |r: FontRecord| r.1,
    )
}

/// Each record sorts no earlier than the ones before it.
pub open spec fn records_sorted(s: Seq<FontRecord>) -> bool {
    forall|i: int, j: int| 0 <= i < j < s.len() ==> !key_lt(#[trigger] s[j].0, #[trigger] s[i].0)
}

proof fn lemma_lex_trans(a: Seq<char>, b: Seq<char>, c: Seq<char>)
    requires
        lex_lt(a, b),
        lex_lt(b, c),
    ensures
        lex_lt(a, c),
    decreases a.len(),
{
    if a.len() > 0 && b.len() > 0 && c.len() > 0 && (a[0] as u32) == (b[0] as u32) && (b[0] as u32)
        == (c[0] as u32) {
        lemma_lex_trans(a.drop_first(), b.drop_first(), c.drop_first());
    }
}

proof fn lemma_lex_irrefl(a: Seq<char>)
    ensures
        !lex_lt(a, a),
    decreases a.len(),
{
    if a.len() > 0 {
        lemma_lex_irrefl(a.drop_first());
    }
}

proof fn lemma_key_trans(a: (u32, Seq<char>, Seq<char>), b: (u32, Seq<char>, Seq<char>), c: (u32, Seq<char>, Seq<char>))
    requires
        key_lt(a, b),
        key_lt(b, c),
    ensures
        key_lt(a, c),
{
    if lex_lt(a.1, b.1) && lex_lt(b.1, c.1) {
        lemma_lex_trans(a.1, b.1, c.1);
    }
    if lex_lt(a.2, b.2) && lex_lt(b.2, c.2) {
        lemma_lex_trans(a.2, b.2, c.2);
    }
}

proof fn lemma_insert_pos(s: Seq<FontRecord>, x: FontRecord, k: int)
    requires
        0 <= k <= s.len(),
    ensures
        k <= insert_pos(s, x, k) <= s.len(),
        forall|m: int| k <= m < insert_pos(s, x, k) ==> !key_lt(x.0, #[trigger] s[m].0),
        insert_pos(s, x, k) < s.len() ==> key_lt(x.0, s[insert_pos(s, x, k)].0),
    decreases s.len() - k,
{
    if k < s.len() && !key_lt(x.0, s[k].0) {
        lemma_insert_pos(s, x, k + 1);
    }
}

proof fn lemma_insert_sorted(s: Seq<FontRecord>, x: FontRecord)
    requires
        records_sorted(s),
    ensures
        records_sorted(insert_sorted(s, x)),
        insert_sorted(s, x).len() == s.len() + 1,
{
    let p = insert_pos(s, x, 0);
    lemma_insert_pos(s, x, 0);
    let t = insert_sorted(s, x);
    assert(t.len() == s.len() + 1);
    assert forall|m: int| 0 <= m < t.len() implies #[trigger] t[m] == if m < p {
        s[m]
    } else if m == p {
        x
    } else {
        s[m - 1]
    } by {}
    assert forall|i: int, j: int| 0 <= i < j < t.len() implies !key_lt(#[trigger] t[j].0, #[trigger] t[i].0) by {
        if j < p {
            assert(t[i] == s[i] && t[j] == s[j]);
        } else if j == p {
            assert(t[i] == s[i]);
        } else if i < p {
            assert(t[i] == s[i] && t[j] == s[j - 1]);
        } else if i == p {
            assert(t[j] == s[j - 1]);
            if key_lt(s[j - 1].0, x.0) {
                if j - 1 > p {
                    assert(!key_lt(s[j - 1].0, s[p].0));
                }
                lemma_key_trans(s[j - 1].0, x.0, s[p].0);
                lemma_lex_irrefl(s[p].0.1);
                lemma_lex_irrefl(s[p].0.2);
            }
        } else {
            assert(t[i] == s[i - 1] && t[j] == s[j - 1]);
        }
    }
}

proof fn lemma_sort_records_sorted(s: Seq<FontRecord>)
    ensures
        records_sorted(sort_records(s)),
        sort_records(s).len() == s.len(),
    decreases s.len(),
{
    if s.len() > 0 {
        lemma_sort_records_sorted(s.drop_last());
        lemma_insert_sorted(sort_records(s.drop_last()), s.last());
    }
}

/// The font list comes sorted: by rank, then lower-cased name, then path.
pub proof fn lemma_font_list_sorted(files: Seq<FontFile>)
    ensures
        ({
            let sorted = sort_records(
                unique_paths(files, 0, Seq::empty()).map_values(|f: FontFile| record_of(f)),
            );
            &&& records_sorted(sorted)
            &&& spec_font_list(files) == sorted.map_values(|r: FontRecord| r.1)
        }),
{
    lemma_sort_records_sorted(
        unique_paths(files, 0, Seq::empty()).map_values(|f: FontFile| record_of(f)),
    );
}

/// A file's lower-cased path, by which repeats are found.
pub open spec fn path_key(f: FontFile) -> Seq<char> {
    unicode_lower(f.path@)
}

proof fn lemma_push_contains(seen: Seq<Seq<char>>, key: Seq<char>, x: Seq<char>)
    ensures
        seen.push(key).contains(x) <==> (seen.contains(x) || x == key),
{
    let next = seen.push(key);
    if seen.contains(x) {
        let j = choose|j: int| 0 <= j < seen.len() && seen[j] == x;
        assert(next[j] == x);
    }
    if x == key {
        assert(next[seen.len() as int] == key);
    }
    if next.contains(x) {
        let j = choose|j: int| 0 <= j < next.len() && next[j] == x;
        if j < seen.len() {
            assert(seen[j] == x);
        }
    }
}

proof fn lemma_unique_paths(files: Seq<FontFile>, i: int, seen: Seq<Seq<char>>)
    requires
        0 <= i <= files.len(),
    ensures
        ({
            let u = unique_paths(files, i, seen);
            &&& forall|a: int, b: int|
                0 <= a < b < u.len() ==> path_key(#[trigger] u[a]) != path_key(#[trigger] u[b])
            &&& forall|a: int| 0 <= a < u.len() ==> !seen.contains(path_key(#[trigger] u[a]))
            &&& forall|m: int|
                i <= m < files.len() ==> seen.contains(path_key(#[trigger] files[m])) || exists|a: int|
                    0 <= a < u.len() && path_key(u[a]) == path_key(files[m])
        }),
    decreases files.len() - i,
{
    if i < files.len() {
        let key = unicode_lower(files[i].path@);
        let u = unique_paths(files, i, seen);
        if seen.contains(key) {
            lemma_unique_paths(files, i + 1, seen);
            assert(u == unique_paths(files, i + 1, seen));
            assert forall|m: int| i <= m < files.len() implies seen.contains(path_key(#[trigger] files[m]))
                || exists|a: int| 0 <= a < u.len() && path_key(u[a]) == path_key(files[m]) by {
                if m == i {
                    assert(path_key(files[m]) == key);
                }
            }
        } else {
            let next = seen.push(key);
            lemma_unique_paths(files, i + 1, next);
            let rest = unique_paths(files, i + 1, next);
            assert(u == seq![files[i]] + rest);
            assert forall|a: int| 0 <= a < rest.len() implies !seen.contains(path_key(#[trigger] rest[a]))
                && path_key(rest[a]) != key by {
                lemma_push_contains(seen, key, path_key(rest[a]));
            }
            assert forall|a: int, b: int| 0 <= a < b < u.len() implies path_key(#[trigger] u[a])
                != path_key(#[trigger] u[b]) by {
                if a == 0 {
                    assert(u[b] == rest[b - 1]);
                } else {
                    assert(u[a] == rest[a - 1] && u[b] == rest[b - 1]);
                }
            }
            assert forall|a: int| 0 <= a < u.len() implies !seen.contains(path_key(#[trigger] u[a])) by {
                if a > 0 {
                    assert(u[a] == rest[a - 1]);
                }
            }
            assert forall|m: int| i <= m < files.len() implies seen.contains(path_key(#[trigger] files[m]))
                || exists|a: int| 0 <= a < u.len() && path_key(u[a]) == path_key(files[m]) by {
                if m == i {
                    assert(path_key(u[0]) == path_key(files[m]));
                } else {
                    lemma_push_contains(seen, key, path_key(files[m]));
                    if path_key(files[m]) == key {
                        assert(path_key(u[0]) == path_key(files[m]));
                    } else if !seen.contains(path_key(files[m])) {
                        let a = choose|a: int| 0 <= a < rest.len() && path_key(rest[a]) == path_key(files[m]);
                        assert(u[a + 1] == rest[a]);
                    }
                }
            }
        }
    }
}

proof fn lemma_sort_records_perm(s: Seq<FontRecord>)
    ensures
        sort_records(s).to_multiset() == s.to_multiset(),
    decreases s.len(),
{
    broadcast use vstd::seq_lib::group_to_multiset_ensures;
    if s.len() > 0 {
        lemma_sort_records_perm(s.drop_last());
        let t = sort_records(s.drop_last());
        let p = insert_pos(t, s.last(), 0);
        lemma_insert_pos(t, s.last(), 0);
        assert(insert_sorted(t, s.last()) =~= t.insert(p, s.last()));
        vstd::seq_lib::to_multiset_insert(t, p, s.last());
        assert(s.drop_last().push(s.last()) =~= s);
    }
}

/// The font list holds each font file once: no two kept files share a
/// lower-cased path, every file found is represented by a kept file with
/// its lower-cased path, and sorting neither adds nor drops a record.
pub proof fn lemma_font_list_unique(files: Seq<FontFile>)
    ensures
        ({
            let u = unique_paths(files, 0, Seq::empty());
            let recs = u.map_values(|f: FontFile| record_of(f));
            &&& forall|a: int, b: int|
                0 <= a < b < u.len() ==> path_key(#[trigger] u[a]) != path_key(#[trigger] u[b])
            &&& forall|m: int|
                0 <= m < files.len() ==> exists|a: int|
                    0 <= a < u.len() && path_key(u[a]) == path_key(#[trigger] files[m])
            &&& sort_records(recs).to_multiset() == recs.to_multiset()
        }),
{
    lemma_unique_paths(files, 0, Seq::empty());
    lemma_sort_records_perm(unique_paths(files, 0, Seq::empty()).map_values(|f: FontFile| record_of(f)));
}

struct Rec {
    prio: u32,
    lname: Vec<char>,
    path: Vec<char>,
    item: SystemFontItem,
}

spec fn rec_view(r: Rec) -> FontRecord {
    ((r.prio, r.lname@, r.path@), (r.item.name@, r.item.family@, r.item.path@))
}

spec fn recs_view(v: Seq<Rec>) -> Seq<FontRecord> {
    v.map_values(|r: Rec| rec_view(r))
}

proof fn lemma_char_eq(x: char, y: char)
    requires
        x as u32 == y as u32,
    ensures
        x == y,
{
}

fn lex_less(a: &[char], b: &[char]) -> (r: bool)
    ensures
        r == lex_lt(a@, b@),
{
    let mut i: usize = 0;
    assert(a@.skip(0) =~= a@);
    assert(b@.skip(0) =~= b@);
    while i < a.len() && i < b.len() && a[i] == b[i]
        invariant
            i <= a.len(),
            i <= b.len(),
            lex_lt(a@, b@) == lex_lt(a@.skip(i as int), b@.skip(i as int)),
        decreases a.len() - i,
    {
        assert(a@.skip(i as int).drop_first() =~= a@.skip(i + 1));
        assert(b@.skip(i as int).drop_first() =~= b@.skip(i + 1));
        i += 1;
    }
    if i == a.len() {
        assert(a@.skip(i as int).len() == 0);
        i < b.len()
    } else if i == b.len() {
        assert(b@.skip(i as int).len() == 0);
        false
    } else {
        assert(a@.skip(i as int)[0] == a@[i as int]);
        assert(b@.skip(i as int)[0] == b@[i as int]);
        assert(a@[i as int] != b@[i as int]);
        assert((a@[i as int] as u32) != (b@[i as int] as u32)) by {
            if (a@[i as int] as u32) == (b@[i as int] as u32) {
                lemma_char_eq(a@[i as int], b@[i as int]);
            }
        }
        (a[i] as u32) < (b[i] as u32)
    }
}

fn rec_less(x: &Rec, y: &Rec) -> (r: bool)
    ensures
        r == key_lt(rec_view(*x).0, rec_view(*y).0),
{
    if x.prio < y.prio {
        return true;
    }
    if x.prio > y.prio {
        return false;
    }
    if lex_less(x.lname.as_slice(), y.lname.as_slice()) {
        return true;
    }
    if !seq_eq(x.lname.as_slice(), y.lname.as_slice()) {
        return false;
    }
    lex_less(x.path.as_slice(), y.path.as_slice())
}

fn record_for(f: &FontFile) -> (r: Rec)
    ensures
        rec_view(r) == record_of(*f),
{
    let fnl = to_lowercase(f.file_name.as_str());
    let (name, family) = match map_known_font(fnl.as_str()) {
        Some((zh, en)) => {
            if str_eq(zh, en) {
                (en.to_owned(), en.to_owned())
            } else {
                let mut n = String::new();
                push_str(&mut n, zh);
                push_str(&mut n, " (");
                push_str(&mut n, en);
                push_str(&mut n, ")");
                (n, zh.to_owned())
            }
        },
        None => (f.stem.clone(), f.stem.clone()),
    };
    let prio = font_priority(family.as_str(), fnl.as_str());
    let lname = to_lowercase(name.as_str());
    let r = Rec {
        prio,
        lname: chars_of(lname.as_str()),
        path: chars_of(f.path.as_str()),
        item: SystemFontItem { name, family, path: f.path.clone() },
    };
    assert(rec_view(r) =~~= record_of(*f));
    r
}

/// Builds the font picker list from the font files found: duplicates by
/// lower-cased path are dropped, well-known files get friendly names, and
/// the list is sorted by preference, then lower-cased name, then path.
pub fn system_font_list(files: Vec<FontFile>) -> (r: Vec<SystemFontItem>)
    ensures
        r@.map_values(|i: SystemFontItem| (i.name@, i.family@, i.path@)) == spec_font_list(files@),
{
    // unique paths
    let mut seen: Vec<String> = Vec::new();
    let mut unique: Vec<FontFile> = Vec::new();
    let ghost target = unique_paths(files@, 0, Seq::empty());
    assert(seen@.map_values(|s: String| s@) =~= Seq::<Seq<char>>::empty());
    let mut i: usize = 0;
    while i < files.len()
        invariant
            i <= files.len(),
            target == unique_paths(files@, 0, Seq::empty()),
            unique@ + unique_paths(files@, i as int, seen@.map_values(|s: String| s@)) == target,
        decreases files.len() - i,
    {
        let key = to_lowercase(files[i].path.as_str());
        let ghost sv = seen@.map_values(|s: String| s@);
        let mut found = false;
        let mut j: usize = 0;
        while j < seen.len()
            invariant
                j <= seen.len(),
                sv == seen@.map_values(|s: String| s@),
                !found ==> forall|m: int| 0 <= m < j ==> sv[m] != key@,
                found ==> sv.contains(key@),
            decreases seen.len() - j,
        {
            assert(sv[j as int] == seen@[j as int]@);
            if str_eq(seen[j].as_str(), key.as_str()) {
                found = true;
                assert(sv.contains(key@));
            }
            j += 1;
        }
        let ghost before = unique@;
        if !found {
            assert(!sv.contains(key@));
            unique.push(files[i].clone_file());
            seen.push(key);
            assert(seen@.map_values(|s: String| s@) =~= sv.push(unicode_lower(files@[i as int].path@)));
            assert(before + (seq![files@[i as int]] + unique_paths(files@, i + 1, sv.push(unicode_lower(files@[i as int].path@))))
                =~= unique@ + unique_paths(files@, i + 1, sv.push(unicode_lower(files@[i as int].path@))));
        }
        i += 1;
    }
    assert(unique@ + Seq::<FontFile>::empty() =~= unique@);
    // records, sorted by insertion
    let ghost recs = unique@.map_values(|f: FontFile| record_of(f));
    let mut sorted: Vec<Rec> = Vec::new();
    let mut k: usize = 0;
    while k < unique.len()
        invariant
            k <= unique.len(),
            recs == unique@.map_values(|f: FontFile| record_of(f)),
            recs_view(sorted@) == sort_records(recs.take(k as int)),
        decreases unique.len() - k,
    {
        let r = record_for(&unique[k]);
        let ghost s0 = recs_view(sorted@);
        let mut p: usize = 0;
        while p < sorted.len() && !rec_less(&r, &sorted[p])
            invariant
                p <= sorted.len(),
                s0 == recs_view(sorted@),
                insert_pos(s0, rec_view(r), 0) == insert_pos(s0, rec_view(r), p as int),
            decreases sorted.len() - p,
        {
            p += 1;
        }
        assert(insert_pos(s0, rec_view(r), p as int) == p);
        sorted.insert(p, r);
        assert(recs.take(k + 1).drop_last() =~= recs.take(k as int));
        assert(recs_view(sorted@) =~= insert_sorted(s0, rec_view(r)));
        k += 1;
    }
    assert(recs.take(unique.len() as int) =~= recs);
    // items
    let mut out: Vec<SystemFontItem> = Vec::new();
    let mut m: usize = 0;
    while m < sorted.len()
        invariant
            m <= sorted.len(),
            out.len() == m,
            forall|q: int| 0 <= q < m ==> (#[trigger] out@[q]).name@ == recs_view(sorted@)[q].1.0
                && out@[q].family@ == recs_view(sorted@)[q].1.1 && out@[q].path@ == recs_view(sorted@)[q].1.2,
        decreases sorted.len() - m,
    {
        let it = &sorted[m].item;
        out.push(SystemFontItem { name: it.name.clone(), family: it.family.clone(), path: it.path.clone() });
        m += 1;
    }
    assert(out@.map_values(|i: SystemFontItem| (i.name@, i.family@, i.path@)) =~= recs_view(sorted@).map_values(
        |r: FontRecord| r.1,
    ));
    out
}

impl FontFile {
    /// An exact copy.
    pub fn clone_file(&self) -> (r: FontFile)
        ensures
            r == *self,
    {
        FontFile { path: self.path.clone(), file_name: self.file_name.clone(), stem: self.stem.clone() }
    }
}

/// The (Chinese, English) names the table gives a lower-case file name.
pub open spec fn known_font(file_name_lower: Seq<char>) -> Option<(Seq<char>, Seq<char>)> {
    match table_index(font_table(), file_name_lower, 0) {
        Some(k) => Some((font_table()[k].1, font_table()[k].2)),
        None => None,
    }
}

proof fn lemma_table_index_at(t: Seq<(Seq<char>, Seq<char>, Seq<char>)>, name: Seq<char>, from: int, k: int)
    requires
        0 <= from <= k < t.len(),
        t[k].0 == name,
        forall|j: int| from <= j < k ==> t[j].0 != name,
    ensures
        table_index(t, name, from) == Some(k),
    decreases k - from,
{
    if from < k {
        lemma_table_index_at(t, name, from + 1, k);
    }
}

proof fn lemma_table_index_found(t: Seq<(Seq<char>, Seq<char>, Seq<char>)>, name: Seq<char>, from: int)
    requires
        0 <= from,
    ensures
        table_index(t, name, from) matches Some(k) ==> from <= k < t.len() && t[k].0 == name,
    decreases t.len() - from,
{
    if 0 <= from < t.len() && t[from].0 != name {
        lemma_table_index_found(t, name, from + 1);
    }
}

/// Where each known file name stands in the table: no earlier entry has the
/// same name.
proof fn lemma_known_font_positions()
    ensures
        table_index(font_table(), "msyh.ttc"@, 0) == Some(0int),
        table_index(font_table(), "msyhl.ttc"@, 0) == Some(1int),
        table_index(font_table(), "msyhbd.ttc"@, 0) == Some(2int),
        table_index(font_table(), "simsun.ttc"@, 0) == Some(3int),
        table_index(font_table(), "simsunb.ttf"@, 0) == Some(4int),
        table_index(font_table(), "simhei.ttf"@, 0) == Some(5int),
        table_index(font_table(), "simkai.ttf"@, 0) == Some(6int),
        table_index(font_table(), "kaiti.ttf"@, 0) == Some(7int),
        table_index(font_table(), "simfang.ttf"@, 0) == Some(8int),
        table_index(font_table(), "fangsong.ttf"@, 0) == Some(9int),
        table_index(font_table(), "stxingka.ttf"@, 0) == Some(10int),
        table_index(font_table(), "stkaiti.ttf"@, 0) == Some(11int),
        table_index(font_table(), "stsong.ttf"@, 0) == Some(12int),
        table_index(font_table(), "stfangso.ttf"@, 0) == Some(13int),
        table_index(font_table(), "stxihei.ttf"@, 0) == Some(14int),
        table_index(font_table(), "stzhongh.ttf"@, 0) == Some(15int),
        table_index(font_table(), "deng.ttf"@, 0) == Some(16int),
        table_index(font_table(), "dengb.ttf"@, 0) == Some(17int),
        table_index(font_table(), "dengl.ttf"@, 0) == Some(18int),
        table_index(font_table(), "simyou.ttf"@, 0) == Some(19int),
        table_index(font_table(), "youyuan.ttf"@, 0) == Some(20int),
        table_index(font_table(), "simli.ttf"@, 0) == Some(21int),
        table_index(font_table(), "lishu.ttf"@, 0) == Some(22int),
        table_index(font_table(), "stcaiyun.ttf"@, 0) == Some(23int),
        table_index(font_table(), "sthupo.ttf"@, 0) == Some(24int),
        table_index(font_table(), "stliti.ttf"@, 0) == Some(25int),
        table_index(font_table(), "stxinwei.ttf"@, 0) == Some(26int),
        table_index(font_table(), "fzstk.ttf"@, 0) == Some(27int),
        table_index(font_table(), "fzytk.ttf"@, 0) == Some(28int),
        table_index(font_table(), "arial.ttf"@, 0) == Some(29int),
        table_index(font_table(), "arialbd.ttf"@, 0) == Some(30int),
        table_index(font_table(), "ariali.ttf"@, 0) == Some(31int),
        table_index(font_table(), "arialbi.ttf"@, 0) == Some(32int),
        table_index(font_table(), "times.ttf"@, 0) == Some(33int),
        table_index(font_table(), "timesbd.ttf"@, 0) == Some(34int),
        table_index(font_table(), "timesi.ttf"@, 0) == Some(35int),
        table_index(font_table(), "timesbi.ttf"@, 0) == Some(36int),
        table_index(font_table(), "calibri.ttf"@, 0) == Some(37int),
        table_index(font_table(), "calibrib.ttf"@, 0) == Some(38int),
        table_index(font_table(), "calibrii.ttf"@, 0) == Some(39int),
        table_index(font_table(), "calibriz.ttf"@, 0) == Some(40int),
        table_index(font_table(), "calibril.ttf"@, 0) == Some(41int),
        table_index(font_table(), "calibrili.ttf"@, 0) == Some(42int),
        table_index(font_table(), "cour.ttf"@, 0) == Some(43int),
        table_index(font_table(), "courbd.ttf"@, 0) == Some(44int),
        table_index(font_table(), "couri.ttf"@, 0) == Some(45int),
        table_index(font_table(), "courbi.ttf"@, 0) == Some(46int),
        table_index(font_table(), "tahoma.ttf"@, 0) == Some(47int),
        table_index(font_table(), "tahomabd.ttf"@, 0) == Some(48int),
        table_index(font_table(), "verdana.ttf"@, 0) == Some(49int),
        table_index(font_table(), "verdanab.ttf"@, 0) == Some(50int),
        table_index(font_table(), "verdanai.ttf"@, 0) == Some(51int),
        table_index(font_table(), "verdanaz.ttf"@, 0) == Some(52int),
        table_index(font_table(), "segoeui.ttf"@, 0) == Some(53int),
        table_index(font_table(), "segoeuib.ttf"@, 0) == Some(54int),
        table_index(font_table(), "segoeuii.ttf"@, 0) == Some(55int),
        table_index(font_table(), "segoeuiz.ttf"@, 0) == Some(56int),
        table_index(font_table(), "segoeuil.ttf"@, 0) == Some(57int),
        table_index(font_table(), "segoeuisb.ttf"@, 0) == Some(58int),
        table_index(font_table(), "segoeuisz.ttf"@, 0) == Some(59int),
        table_index(font_table(), "segoeuisl.ttf"@, 0) == Some(60int),
        table_index(font_table(), "segoeuibl.ttf"@, 0) == Some(61int),
        table_index(font_table(), "pingfang.ttc"@, 0) == Some(62int),
        table_index(font_table(), "songti.ttc"@, 0) == Some(63int),
        table_index(font_table(), "kaiti.ttc"@, 0) == Some(64int),
        table_index(font_table(), "heiti.ttc"@, 0) == Some(65int),
        table_index(font_table(), "yuanti.ttc"@, 0) == Some(66int),
        table_index(font_table(), "stheitilight.ttc"@, 0) == Some(67int),
        table_index(font_table(), "stheitimedium.ttc"@, 0) == Some(68int),
        table_index(font_table(), "hiraginosansgb.ttc"@, 0) == Some(69int),
        table_index(font_table(), "notosanscjk-regular.ttc"@, 0) == Some(70int),
        table_index(font_table(), "notosanscjk.ttc"@, 0) == Some(71int),
        table_index(font_table(), "notosanssc-regular.otf"@, 0) == Some(72int),
        table_index(font_table(), "notosanssc-regular.ttf"@, 0) == Some(73int),
        table_index(font_table(), "notoserifcjk-regular.ttc"@, 0) == Some(74int),
        table_index(font_table(), "notoserifcjk.ttc"@, 0) == Some(75int),
        table_index(font_table(), "notoserifsc-regular.otf"@, 0) == Some(76int),
        table_index(font_table(), "notoserifsc-regular.ttf"@, 0) == Some(77int),
        table_index(font_table(), "wenquanyimicrohei.ttf"@, 0) == Some(78int),
        table_index(font_table(), "wqy-microhei.ttc"@, 0) == Some(79int),
        table_index(font_table(), "wenquanyizenhei.ttf"@, 0) == Some(80int),
        table_index(font_table(), "wqy-zenhei.ttc"@, 0) == Some(81int),
{
    let t = font_table();
    reveal_strlit("msyh.ttc");
    reveal_strlit("msyhl.ttc");
    reveal_strlit("msyhbd.ttc");
    reveal_strlit("simsun.ttc");
    reveal_strlit("simsunb.ttf");
    reveal_strlit("simhei.ttf");
    reveal_strlit("simkai.ttf");
    reveal_strlit("kaiti.ttf");
    reveal_strlit("simfang.ttf");
    reveal_strlit("fangsong.ttf");
    reveal_strlit("stxingka.ttf");
    reveal_strlit("stkaiti.ttf");
    reveal_strlit("stsong.ttf");
    reveal_strlit("stfangso.ttf");
    reveal_strlit("stxihei.ttf");
    reveal_strlit("stzhongh.ttf");
    reveal_strlit("deng.ttf");
    reveal_strlit("dengb.ttf");
    reveal_strlit("dengl.ttf");
    reveal_strlit("simyou.ttf");
    reveal_strlit("youyuan.ttf");
    reveal_strlit("simli.ttf");
    reveal_strlit("lishu.ttf");
    reveal_strlit("stcaiyun.ttf");
    reveal_strlit("sthupo.ttf");
    reveal_strlit("stliti.ttf");
    reveal_strlit("stxinwei.ttf");
    reveal_strlit("fzstk.ttf");
    reveal_strlit("fzytk.ttf");
    reveal_strlit("arial.ttf");
    reveal_strlit("arialbd.ttf");
    reveal_strlit("ariali.ttf");
    reveal_strlit("arialbi.ttf");
    reveal_strlit("times.ttf");
    reveal_strlit("timesbd.ttf");
    reveal_strlit("timesi.ttf");
    reveal_strlit("timesbi.ttf");
    reveal_strlit("calibri.ttf");
    reveal_strlit("calibrib.ttf");
    reveal_strlit("calibrii.ttf");
    reveal_strlit("calibriz.ttf");
    reveal_strlit("calibril.ttf");
    reveal_strlit("calibrili.ttf");
    reveal_strlit("cour.ttf");
    reveal_strlit("courbd.ttf");
    reveal_strlit("couri.ttf");
    reveal_strlit("courbi.ttf");
    reveal_strlit("tahoma.ttf");
    reveal_strlit("tahomabd.ttf");
    reveal_strlit("verdana.ttf");
    reveal_strlit("verdanab.ttf");
    reveal_strlit("verdanai.ttf");
    reveal_strlit("verdanaz.ttf");
    reveal_strlit("segoeui.ttf");
    reveal_strlit("segoeuib.ttf");
    reveal_strlit("segoeuii.ttf");
    reveal_strlit("segoeuiz.ttf");
    reveal_strlit("segoeuil.ttf");
    reveal_strlit("segoeuisb.ttf");
    reveal_strlit("segoeuisz.ttf");
    reveal_strlit("segoeuisl.ttf");
    reveal_strlit("segoeuibl.ttf");
    reveal_strlit("pingfang.ttc");
    reveal_strlit("songti.ttc");
    reveal_strlit("kaiti.ttc");
    reveal_strlit("heiti.ttc");
    reveal_strlit("yuanti.ttc");
    reveal_strlit("stheitilight.ttc");
    reveal_strlit("stheitimedium.ttc");
    reveal_strlit("hiraginosansgb.ttc");
    reveal_strlit("notosanscjk-regular.ttc");
    reveal_strlit("notosanscjk.ttc");
    reveal_strlit("notosanssc-regular.otf");
    reveal_strlit("notosanssc-regular.ttf");
    reveal_strlit("notoserifcjk-regular.ttc");
    reveal_strlit("notoserifcjk.ttc");
    reveal_strlit("notoserifsc-regular.otf");
    reveal_strlit("notoserifsc-regular.ttf");
    reveal_strlit("wenquanyimicrohei.ttf");
    reveal_strlit("wqy-microhei.ttc");
    reveal_strlit("wenquanyizenhei.ttf");
    reveal_strlit("wqy-zenhei.ttc");
    assert(t[0].0 == "msyh.ttc"@);
    assert(t[1].0 == "msyhl.ttc"@);
    assert(t[2].0 == "msyhbd.ttc"@);
    assert(t[3].0 == "simsun.ttc"@);
    assert(t[4].0 == "simsunb.ttf"@);
    assert(t[5].0 == "simhei.ttf"@);
    assert(t[6].0 == "simkai.ttf"@);
    assert(t[7].0 == "kaiti.ttf"@);
    assert(t[8].0 == "simfang.ttf"@);
    assert(t[9].0 == "fangsong.ttf"@);
    assert(t[10].0 == "stxingka.ttf"@);
    assert(t[11].0 == "stkaiti.ttf"@);
    assert(t[12].0 == "stsong.ttf"@);
    assert(t[13].0 == "stfangso.ttf"@);
    assert(t[14].0 == "stxihei.ttf"@);
    assert(t[15].0 == "stzhongh.ttf"@);
    assert(t[16].0 == "deng.ttf"@);
    assert(t[17].0 == "dengb.ttf"@);
    assert(t[18].0 == "dengl.ttf"@);
    assert(t[19].0 == "simyou.ttf"@);
    assert(t[20].0 == "youyuan.ttf"@);
    assert(t[21].0 == "simli.ttf"@);
    assert(t[22].0 == "lishu.ttf"@);
    assert(t[23].0 == "stcaiyun.ttf"@);
    assert(t[24].0 == "sthupo.ttf"@);
    assert(t[25].0 == "stliti.ttf"@);
    assert(t[26].0 == "stxinwei.ttf"@);
    assert(t[27].0 == "fzstk.ttf"@);
    assert(t[28].0 == "fzytk.ttf"@);
    assert(t[29].0 == "arial.ttf"@);
    assert(t[30].0 == "arialbd.ttf"@);
    assert(t[31].0 == "ariali.ttf"@);
    assert(t[32].0 == "arialbi.ttf"@);
    assert(t[33].0 == "times.ttf"@);
    assert(t[34].0 == "timesbd.ttf"@);
    assert(t[35].0 == "timesi.ttf"@);
    assert(t[36].0 == "timesbi.ttf"@);
    assert(t[37].0 == "calibri.ttf"@);
    assert(t[38].0 == "calibrib.ttf"@);
    assert(t[39].0 == "calibrii.ttf"@);
    assert(t[40].0 == "calibriz.ttf"@);
    assert(t[41].0 == "calibril.ttf"@);
    assert(t[42].0 == "calibrili.ttf"@);
    assert(t[43].0 == "cour.ttf"@);
    assert(t[44].0 == "courbd.ttf"@);
    assert(t[45].0 == "couri.ttf"@);
    assert(t[46].0 == "courbi.ttf"@);
    assert(t[47].0 == "tahoma.ttf"@);
    assert(t[48].0 == "tahomabd.ttf"@);
    assert(t[49].0 == "verdana.ttf"@);
    assert(t[50].0 == "verdanab.ttf"@);
    assert(t[51].0 == "verdanai.ttf"@);
    assert(t[52].0 == "verdanaz.ttf"@);
    assert(t[53].0 == "segoeui.ttf"@);
    assert(t[54].0 == "segoeuib.ttf"@);
    assert(t[55].0 == "segoeuii.ttf"@);
    assert(t[56].0 == "segoeuiz.ttf"@);
    assert(t[57].0 == "segoeuil.ttf"@);
    assert(t[58].0 == "segoeuisb.ttf"@);
    assert(t[59].0 == "segoeuisz.ttf"@);
    assert(t[60].0 == "segoeuisl.ttf"@);
    assert(t[61].0 == "segoeuibl.ttf"@);
    assert(t[62].0 == "pingfang.ttc"@);
    assert(t[63].0 == "songti.ttc"@);
    assert(t[64].0 == "kaiti.ttc"@);
    assert(t[65].0 == "heiti.ttc"@);
    assert(t[66].0 == "yuanti.ttc"@);
    assert(t[67].0 == "stheitilight.ttc"@);
    assert(t[68].0 == "stheitimedium.ttc"@);
    assert(t[69].0 == "hiraginosansgb.ttc"@);
    assert(t[70].0 == "notosanscjk-regular.ttc"@);
    assert(t[71].0 == "notosanscjk.ttc"@);
    assert(t[72].0 == "notosanssc-regular.otf"@);
    assert(t[73].0 == "notosanssc-regular.ttf"@);
    assert(t[74].0 == "notoserifcjk-regular.ttc"@);
    assert(t[75].0 == "notoserifcjk.ttc"@);
    assert(t[76].0 == "notoserifsc-regular.otf"@);
    assert(t[77].0 == "notoserifsc-regular.ttf"@);
    assert(t[78].0 == "wenquanyimicrohei.ttf"@);
    assert(t[79].0 == "wqy-microhei.ttc"@);
    assert(t[80].0 == "wenquanyizenhei.ttf"@);
    assert(t[81].0 == "wqy-zenhei.ttc"@);
    lemma_table_index_at(t, "msyh.ttc"@, 0, 0);
    assert forall|j: int| 0 <= j < 1 implies (#[trigger] t[j]).0 != t[1].0 by {
        assert(t[j].0.len() != t[1].0.len() || t[j].0 != t[1].0);
    }
    lemma_table_index_at(t, "msyhl.ttc"@, 0, 1);
    assert forall|j: int| 0 <= j < 2 implies (#[trigger] t[j]).0 != t[2].0 by {
        assert(t[j].0.len() != t[2].0.len() || t[j].0 != t[2].0);
    }
    lemma_table_index_at(t, "msyhbd.ttc"@, 0, 2);
    assert(t[2].0[0] != t[3].0[0]);
    assert forall|j: int| 0 <= j < 3 implies (#[trigger] t[j]).0 != t[3].0 by {
        assert(t[j].0.len() != t[3].0.len() || t[j].0 != t[3].0);
    }
    lemma_table_index_at(t, "simsun.ttc"@, 0, 3);
    assert forall|j: int| 0 <= j < 4 implies (#[trigger] t[j]).0 != t[4].0 by {
        assert(t[j].0.len() != t[4].0.len() || t[j].0 != t[4].0);
    }
    lemma_table_index_at(t, "simsunb.ttf"@, 0, 4);
    assert(t[2].0[0] != t[5].0[0]);
    assert(t[3].0[3] != t[5].0[3]);
    assert forall|j: int| 0 <= j < 5 implies (#[trigger] t[j]).0 != t[5].0 by {
        assert(t[j].0.len() != t[5].0.len() || t[j].0 != t[5].0);
    }
    lemma_table_index_at(t, "simhei.ttf"@, 0, 5);
    assert(t[2].0[0] != t[6].0[0]);
    assert(t[3].0[3] != t[6].0[3]);
    assert(t[5].0[3] != t[6].0[3]);
    assert forall|j: int| 0 <= j < 6 implies (#[trigger] t[j]).0 != t[6].0 by {
        assert(t[j].0.len() != t[6].0.len() || t[j].0 != t[6].0);
    }
    lemma_table_index_at(t, "simkai.ttf"@, 0, 6);
    assert(t[1].0[0] != t[7].0[0]);
    assert forall|j: int| 0 <= j < 7 implies (#[trigger] t[j]).0 != t[7].0 by {
        assert(t[j].0.len() != t[7].0.len() || t[j].0 != t[7].0);
    }
    lemma_table_index_at(t, "kaiti.ttf"@, 0, 7);
    assert(t[4].0[3] != t[8].0[3]);
    assert forall|j: int| 0 <= j < 8 implies (#[trigger] t[j]).0 != t[8].0 by {
        assert(t[j].0.len() != t[8].0.len() || t[j].0 != t[8].0);
    }
    lemma_table_index_at(t, "simfang.ttf"@, 0, 8);
    assert forall|j: int| 0 <= j < 9 implies (#[trigger] t[j]).0 != t[9].0 by {
        assert(t[j].0.len() != t[9].0.len() || t[j].0 != t[9].0);
    }
    lemma_table_index_at(t, "fangsong.ttf"@, 0, 9);
    assert(t[9].0[0] != t[10].0[0]);
    assert forall|j: int| 0 <= j < 10 implies (#[trigger] t[j]).0 != t[10].0 by {
        assert(t[j].0.len() != t[10].0.len() || t[j].0 != t[10].0);
    }
    lemma_table_index_at(t, "stxingka.ttf"@, 0, 10);
    assert(t[4].0[1] != t[11].0[1]);
    assert(t[8].0[1] != t[11].0[1]);
    assert forall|j: int| 0 <= j < 11 implies (#[trigger] t[j]).0 != t[11].0 by {
        assert(t[j].0.len() != t[11].0.len() || t[j].0 != t[11].0);
    }
    lemma_table_index_at(t, "stkaiti.ttf"@, 0, 11);
    assert(t[2].0[0] != t[12].0[0]);
    assert(t[3].0[1] != t[12].0[1]);
    assert(t[5].0[1] != t[12].0[1]);
    assert(t[6].0[1] != t[12].0[1]);
    assert forall|j: int| 0 <= j < 12 implies (#[trigger] t[j]).0 != t[12].0 by {
        assert(t[j].0.len() != t[12].0.len() || t[j].0 != t[12].0);
    }
    lemma_table_index_at(t, "stsong.ttf"@, 0, 12);
    assert(t[9].0[0] != t[13].0[0]);
    assert(t[10].0[2] != t[13].0[2]);
    assert forall|j: int| 0 <= j < 13 implies (#[trigger] t[j]).0 != t[13].0 by {
        assert(t[j].0.len() != t[13].0.len() || t[j].0 != t[13].0);
    }
    lemma_table_index_at(t, "stfangso.ttf"@, 0, 13);
    assert(t[4].0[1] != t[14].0[1]);
    assert(t[8].0[1] != t[14].0[1]);
    assert(t[11].0[2] != t[14].0[2]);
    assert forall|j: int| 0 <= j < 14 implies (#[trigger] t[j]).0 != t[14].0 by {
        assert(t[j].0.len() != t[14].0.len() || t[j].0 != t[14].0);
    }
    lemma_table_index_at(t, "stxihei.ttf"@, 0, 14);
    assert(t[9].0[0] != t[15].0[0]);
    assert(t[10].0[2] != t[15].0[2]);
    assert(t[13].0[2] != t[15].0[2]);
    assert forall|j: int| 0 <= j < 15 implies (#[trigger] t[j]).0 != t[15].0 by {
        assert(t[j].0.len() != t[15].0.len() || t[j].0 != t[15].0);
    }
    lemma_table_index_at(t, "stzhongh.ttf"@, 0, 15);
    assert(t[0].0[0] != t[16].0[0]);
    assert forall|j: int| 0 <= j < 16 implies (#[trigger] t[j]).0 != t[16].0 by {
        assert(t[j].0.len() != t[16].0.len() || t[j].0 != t[16].0);
    }
    lemma_table_index_at(t, "deng.ttf"@, 0, 16);
    assert(t[1].0[0] != t[17].0[0]);
    assert(t[7].0[0] != t[17].0[0]);
    assert forall|j: int| 0 <= j < 17 implies (#[trigger] t[j]).0 != t[17].0 by {
        assert(t[j].0.len() != t[17].0.len() || t[j].0 != t[17].0);
    }
    lemma_table_index_at(t, "dengb.ttf"@, 0, 17);
    assert(t[1].0[0] != t[18].0[0]);
    assert(t[7].0[0] != t[18].0[0]);
    assert(t[17].0[4] != t[18].0[4]);
    assert forall|j: int| 0 <= j < 18 implies (#[trigger] t[j]).0 != t[18].0 by {
        assert(t[j].0.len() != t[18].0.len() || t[j].0 != t[18].0);
    }
    lemma_table_index_at(t, "dengl.ttf"@, 0, 18);
    assert(t[2].0[0] != t[19].0[0]);
    assert(t[3].0[3] != t[19].0[3]);
    assert(t[5].0[3] != t[19].0[3]);
    assert(t[6].0[3] != t[19].0[3]);
    assert(t[12].0[1] != t[19].0[1]);
    assert forall|j: int| 0 <= j < 19 implies (#[trigger] t[j]).0 != t[19].0 by {
        assert(t[j].0.len() != t[19].0.len() || t[j].0 != t[19].0);
    }
    lemma_table_index_at(t, "simyou.ttf"@, 0, 19);
    assert(t[4].0[0] != t[20].0[0]);
    assert(t[8].0[0] != t[20].0[0]);
    assert(t[11].0[0] != t[20].0[0]);
    assert(t[14].0[0] != t[20].0[0]);
    assert forall|j: int| 0 <= j < 20 implies (#[trigger] t[j]).0 != t[20].0 by {
        assert(t[j].0.len() != t[20].0.len() || t[j].0 != t[20].0);
    }
    lemma_table_index_at(t, "youyuan.ttf"@, 0, 20);
    assert(t[1].0[0] != t[21].0[0]);
    assert(t[7].0[0] != t[21].0[0]);
    assert(t[17].0[0] != t[21].0[0]);
    assert(t[18].0[0] != t[21].0[0]);
    assert forall|j: int| 0 <= j < 21 implies (#[trigger] t[j]).0 != t[21].0 by {
        assert(t[j].0.len() != t[21].0.len() || t[j].0 != t[21].0);
    }
    lemma_table_index_at(t, "simli.ttf"@, 0, 21);
    assert(t[1].0[0] != t[22].0[0]);
    assert(t[7].0[0] != t[22].0[0]);
    assert(t[17].0[0] != t[22].0[0]);
    assert(t[18].0[0] != t[22].0[0]);
    assert(t[21].0[0] != t[22].0[0]);
    assert forall|j: int| 0 <= j < 22 implies (#[trigger] t[j]).0 != t[22].0 by {
        assert(t[j].0.len() != t[22].0.len() || t[j].0 != t[22].0);
    }
    lemma_table_index_at(t, "lishu.ttf"@, 0, 22);
    assert(t[9].0[0] != t[23].0[0]);
    assert(t[10].0[2] != t[23].0[2]);
    assert(t[13].0[2] != t[23].0[2]);
    assert(t[15].0[2] != t[23].0[2]);
    assert forall|j: int| 0 <= j < 23 implies (#[trigger] t[j]).0 != t[23].0 by {
        assert(t[j].0.len() != t[23].0.len() || t[j].0 != t[23].0);
    }
    lemma_table_index_at(t, "stcaiyun.ttf"@, 0, 23);
    assert(t[2].0[0] != t[24].0[0]);
    assert(t[3].0[1] != t[24].0[1]);
    assert(t[5].0[1] != t[24].0[1]);
    assert(t[6].0[1] != t[24].0[1]);
    assert(t[12].0[2] != t[24].0[2]);
    assert(t[19].0[1] != t[24].0[1]);
    assert forall|j: int| 0 <= j < 24 implies (#[trigger] t[j]).0 != t[24].0 by {
        assert(t[j].0.len() != t[24].0.len() || t[j].0 != t[24].0);
    }
    lemma_table_index_at(t, "sthupo.ttf"@, 0, 24);
    assert(t[2].0[0] != t[25].0[0]);
    assert(t[3].0[1] != t[25].0[1]);
    assert(t[5].0[1] != t[25].0[1]);
    assert(t[6].0[1] != t[25].0[1]);
    assert(t[12].0[2] != t[25].0[2]);
    assert(t[19].0[1] != t[25].0[1]);
    assert(t[24].0[2] != t[25].0[2]);
    assert forall|j: int| 0 <= j < 25 implies (#[trigger] t[j]).0 != t[25].0 by {
        assert(t[j].0.len() != t[25].0.len() || t[j].0 != t[25].0);
    }
    lemma_table_index_at(t, "stliti.ttf"@, 0, 25);
    assert(t[9].0[0] != t[26].0[0]);
    assert(t[10].0[5] != t[26].0[5]);
    assert(t[13].0[2] != t[26].0[2]);
    assert(t[15].0[2] != t[26].0[2]);
    assert(t[23].0[2] != t[26].0[2]);
    assert forall|j: int| 0 <= j < 26 implies (#[trigger] t[j]).0 != t[26].0 by {
        assert(t[j].0.len() != t[26].0.len() || t[j].0 != t[26].0);
    }
    lemma_table_index_at(t, "stxinwei.ttf"@, 0, 26);
    assert(t[1].0[0] != t[27].0[0]);
    assert(t[7].0[0] != t[27].0[0]);
    assert(t[17].0[0] != t[27].0[0]);
    assert(t[18].0[0] != t[27].0[0]);
    assert(t[21].0[0] != t[27].0[0]);
    assert(t[22].0[0] != t[27].0[0]);
    assert forall|j: int| 0 <= j < 27 implies (#[trigger] t[j]).0 != t[27].0 by {
        assert(t[j].0.len() != t[27].0.len() || t[j].0 != t[27].0);
    }
    lemma_table_index_at(t, "fzstk.ttf"@, 0, 27);
    assert(t[1].0[0] != t[28].0[0]);
    assert(t[7].0[0] != t[28].0[0]);
    assert(t[17].0[0] != t[28].0[0]);
    assert(t[18].0[0] != t[28].0[0]);
    assert(t[21].0[0] != t[28].0[0]);
    assert(t[22].0[0] != t[28].0[0]);
    assert(t[27].0[2] != t[28].0[2]);
    assert forall|j: int| 0 <= j < 28 implies (#[trigger] t[j]).0 != t[28].0 by {
        assert(t[j].0.len() != t[28].0.len() || t[j].0 != t[28].0);
    }
    lemma_table_index_at(t, "fzytk.ttf"@, 0, 28);
    assert(t[1].0[0] != t[29].0[0]);
    assert(t[7].0[0] != t[29].0[0]);
    assert(t[17].0[0] != t[29].0[0]);
    assert(t[18].0[0] != t[29].0[0]);
    assert(t[21].0[0] != t[29].0[0]);
    assert(t[22].0[0] != t[29].0[0]);
    assert(t[27].0[0] != t[29].0[0]);
    assert(t[28].0[0] != t[29].0[0]);
    assert forall|j: int| 0 <= j < 29 implies (#[trigger] t[j]).0 != t[29].0 by {
        assert(t[j].0.len() != t[29].0.len() || t[j].0 != t[29].0);
    }
    lemma_table_index_at(t, "arial.ttf"@, 0, 29);
    assert(t[4].0[0] != t[30].0[0]);
    assert(t[8].0[0] != t[30].0[0]);
    assert(t[11].0[0] != t[30].0[0]);
    assert(t[14].0[0] != t[30].0[0]);
    assert(t[20].0[0] != t[30].0[0]);
    assert forall|j: int| 0 <= j < 30 implies (#[trigger] t[j]).0 != t[30].0 by {
        assert(t[j].0.len() != t[30].0.len() || t[j].0 != t[30].0);
    }
    lemma_table_index_at(t, "arialbd.ttf"@, 0, 30);
    assert(t[2].0[0] != t[31].0[0]);
    assert(t[3].0[0] != t[31].0[0]);
    assert(t[5].0[0] != t[31].0[0]);
    assert(t[6].0[0] != t[31].0[0]);
    assert(t[12].0[0] != t[31].0[0]);
    assert(t[19].0[0] != t[31].0[0]);
    assert(t[24].0[0] != t[31].0[0]);
    assert(t[25].0[0] != t[31].0[0]);
    assert forall|j: int| 0 <= j < 31 implies (#[trigger] t[j]).0 != t[31].0 by {
        assert(t[j].0.len() != t[31].0.len() || t[j].0 != t[31].0);
    }
    lemma_table_index_at(t, "ariali.ttf"@, 0, 31);
    assert(t[4].0[0] != t[32].0[0]);
    assert(t[8].0[0] != t[32].0[0]);
    assert(t[11].0[0] != t[32].0[0]);
    assert(t[14].0[0] != t[32].0[0]);
    assert(t[20].0[0] != t[32].0[0]);
    assert(t[30].0[6] != t[32].0[6]);
    assert forall|j: int| 0 <= j < 32 implies (#[trigger] t[j]).0 != t[32].0 by {
        assert(t[j].0.len() != t[32].0.len() || t[j].0 != t[32].0);
    }
    lemma_table_index_at(t, "arialbi.ttf"@, 0, 32);
    assert(t[1].0[0] != t[33].0[0]);
    assert(t[7].0[0] != t[33].0[0]);
    assert(t[17].0[0] != t[33].0[0]);
    assert(t[18].0[0] != t[33].0[0]);
    assert(t[21].0[0] != t[33].0[0]);
    assert(t[22].0[0] != t[33].0[0]);
    assert(t[27].0[0] != t[33].0[0]);
    assert(t[28].0[0] != t[33].0[0]);
    assert(t[29].0[0] != t[33].0[0]);
    assert forall|j: int| 0 <= j < 33 implies (#[trigger] t[j]).0 != t[33].0 by {
        assert(t[j].0.len() != t[33].0.len() || t[j].0 != t[33].0);
    }
    lemma_table_index_at(t, "times.ttf"@, 0, 33);
    assert(t[4].0[0] != t[34].0[0]);
    assert(t[8].0[0] != t[34].0[0]);
    assert(t[11].0[0] != t[34].0[0]);
    assert(t[14].0[0] != t[34].0[0]);
    assert(t[20].0[0] != t[34].0[0]);
    assert(t[30].0[0] != t[34].0[0]);
    assert(t[32].0[0] != t[34].0[0]);
    assert forall|j: int| 0 <= j < 34 implies (#[trigger] t[j]).0 != t[34].0 by {
        assert(t[j].0.len() != t[34].0.len() || t[j].0 != t[34].0);
    }
    lemma_table_index_at(t, "timesbd.ttf"@, 0, 34);
    assert(t[2].0[0] != t[35].0[0]);
    assert(t[3].0[0] != t[35].0[0]);
    assert(t[5].0[0] != t[35].0[0]);
    assert(t[6].0[0] != t[35].0[0]);
    assert(t[12].0[0] != t[35].0[0]);
    assert(t[19].0[0] != t[35].0[0]);
    assert(t[24].0[0] != t[35].0[0]);
    assert(t[25].0[0] != t[35].0[0]);
    assert(t[31].0[0] != t[35].0[0]);
    assert forall|j: int| 0 <= j < 35 implies (#[trigger] t[j]).0 != t[35].0 by {
        assert(t[j].0.len() != t[35].0.len() || t[j].0 != t[35].0);
    }
    lemma_table_index_at(t, "timesi.ttf"@, 0, 35);
    assert(t[4].0[0] != t[36].0[0]);
    assert(t[8].0[0] != t[36].0[0]);
    assert(t[11].0[0] != t[36].0[0]);
    assert(t[14].0[0] != t[36].0[0]);
    assert(t[20].0[0] != t[36].0[0]);
    assert(t[30].0[0] != t[36].0[0]);
    assert(t[32].0[0] != t[36].0[0]);
    assert(t[34].0[6] != t[36].0[6]);
    assert forall|j: int| 0 <= j < 36 implies (#[trigger] t[j]).0 != t[36].0 by {
        assert(t[j].0.len() != t[36].0.len() || t[j].0 != t[36].0);
    }
    lemma_table_index_at(t, "timesbi.ttf"@, 0, 36);
    assert(t[4].0[0] != t[37].0[0]);
    assert(t[8].0[0] != t[37].0[0]);
    assert(t[11].0[0] != t[37].0[0]);
    assert(t[14].0[0] != t[37].0[0]);
    assert(t[20].0[0] != t[37].0[0]);
    assert(t[30].0[0] != t[37].0[0]);
    assert(t[32].0[0] != t[37].0[0]);
    assert(t[34].0[0] != t[37].0[0]);
    assert(t[36].0[0] != t[37].0[0]);
    assert forall|j: int| 0 <= j < 37 implies (#[trigger] t[j]).0 != t[37].0 by {
        assert(t[j].0.len() != t[37].0.len() || t[j].0 != t[37].0);
    }
    lemma_table_index_at(t, "calibri.ttf"@, 0, 37);
    assert(t[9].0[0] != t[38].0[0]);
    assert(t[10].0[0] != t[38].0[0]);
    assert(t[13].0[0] != t[38].0[0]);
    assert(t[15].0[0] != t[38].0[0]);
    assert(t[23].0[0] != t[38].0[0]);
    assert(t[26].0[0] != t[38].0[0]);
    assert forall|j: int| 0 <= j < 38 implies (#[trigger] t[j]).0 != t[38].0 by {
        assert(t[j].0.len() != t[38].0.len() || t[j].0 != t[38].0);
    }
    lemma_table_index_at(t, "calibrib.ttf"@, 0, 38);
    assert(t[9].0[0] != t[39].0[0]);
    assert(t[10].0[0] != t[39].0[0]);
    assert(t[13].0[0] != t[39].0[0]);
    assert(t[15].0[0] != t[39].0[0]);
    assert(t[23].0[0] != t[39].0[0]);
    assert(t[26].0[0] != t[39].0[0]);
    assert(t[38].0[7] != t[39].0[7]);
    assert forall|j: int| 0 <= j < 39 implies (#[trigger] t[j]).0 != t[39].0 by {
        assert(t[j].0.len() != t[39].0.len() || t[j].0 != t[39].0);
    }
    lemma_table_index_at(t, "calibrii.ttf"@, 0, 39);
    assert(t[9].0[0] != t[40].0[0]);
    assert(t[10].0[0] != t[40].0[0]);
    assert(t[13].0[0] != t[40].0[0]);
    assert(t[15].0[0] != t[40].0[0]);
    assert(t[23].0[0] != t[40].0[0]);
    assert(t[26].0[0] != t[40].0[0]);
    assert(t[38].0[7] != t[40].0[7]);
    assert(t[39].0[7] != t[40].0[7]);
    assert forall|j: int| 0 <= j < 40 implies (#[trigger] t[j]).0 != t[40].0 by {
        assert(t[j].0.len() != t[40].0.len() || t[j].0 != t[40].0);
    }
    lemma_table_index_at(t, "calibriz.ttf"@, 0, 40);
    assert(t[9].0[0] != t[41].0[0]);
    assert(t[10].0[0] != t[41].0[0]);
    assert(t[13].0[0] != t[41].0[0]);
    assert(t[15].0[0] != t[41].0[0]);
    assert(t[23].0[0] != t[41].0[0]);
    assert(t[26].0[0] != t[41].0[0]);
    assert(t[38].0[7] != t[41].0[7]);
    assert(t[39].0[7] != t[41].0[7]);
    assert(t[40].0[7] != t[41].0[7]);
    assert forall|j: int| 0 <= j < 41 implies (#[trigger] t[j]).0 != t[41].0 by {
        assert(t[j].0.len() != t[41].0.len() || t[j].0 != t[41].0);
    }
    lemma_table_index_at(t, "calibril.ttf"@, 0, 41);
    assert forall|j: int| 0 <= j < 42 implies (#[trigger] t[j]).0 != t[42].0 by {
        assert(t[j].0.len() != t[42].0.len() || t[j].0 != t[42].0);
    }
    lemma_table_index_at(t, "calibrili.ttf"@, 0, 42);
    assert(t[0].0[0] != t[43].0[0]);
    assert(t[16].0[0] != t[43].0[0]);
    assert forall|j: int| 0 <= j < 43 implies (#[trigger] t[j]).0 != t[43].0 by {
        assert(t[j].0.len() != t[43].0.len() || t[j].0 != t[43].0);
    }
    lemma_table_index_at(t, "cour.ttf"@, 0, 43);
    assert(t[2].0[0] != t[44].0[0]);
    assert(t[3].0[0] != t[44].0[0]);
    assert(t[5].0[0] != t[44].0[0]);
    assert(t[6].0[0] != t[44].0[0]);
    assert(t[12].0[0] != t[44].0[0]);
    assert(t[19].0[0] != t[44].0[0]);
    assert(t[24].0[0] != t[44].0[0]);
    assert(t[25].0[0] != t[44].0[0]);
    assert(t[31].0[0] != t[44].0[0]);
    assert(t[35].0[0] != t[44].0[0]);
    assert forall|j: int| 0 <= j < 44 implies (#[trigger] t[j]).0 != t[44].0 by {
        assert(t[j].0.len() != t[44].0.len() || t[j].0 != t[44].0);
    }
    lemma_table_index_at(t, "courbd.ttf"@, 0, 44);
    assert(t[1].0[0] != t[45].0[0]);
    assert(t[7].0[0] != t[45].0[0]);
    assert(t[17].0[0] != t[45].0[0]);
    assert(t[18].0[0] != t[45].0[0]);
    assert(t[21].0[0] != t[45].0[0]);
    assert(t[22].0[0] != t[45].0[0]);
    assert(t[27].0[0] != t[45].0[0]);
    assert(t[28].0[0] != t[45].0[0]);
    assert(t[29].0[0] != t[45].0[0]);
    assert(t[33].0[0] != t[45].0[0]);
    assert forall|j: int| 0 <= j < 45 implies (#[trigger] t[j]).0 != t[45].0 by {
        assert(t[j].0.len() != t[45].0.len() || t[j].0 != t[45].0);
    }
    lemma_table_index_at(t, "couri.ttf"@, 0, 45);
    assert(t[2].0[0] != t[46].0[0]);
    assert(t[3].0[0] != t[46].0[0]);
    assert(t[5].0[0] != t[46].0[0]);
    assert(t[6].0[0] != t[46].0[0]);
    assert(t[12].0[0] != t[46].0[0]);
    assert(t[19].0[0] != t[46].0[0]);
    assert(t[24].0[0] != t[46].0[0]);
    assert(t[25].0[0] != t[46].0[0]);
    assert(t[31].0[0] != t[46].0[0]);
    assert(t[35].0[0] != t[46].0[0]);
    assert(t[44].0[5] != t[46].0[5]);
    assert forall|j: int| 0 <= j < 46 implies (#[trigger] t[j]).0 != t[46].0 by {
        assert(t[j].0.len() != t[46].0.len() || t[j].0 != t[46].0);
    }
    lemma_table_index_at(t, "courbi.ttf"@, 0, 46);
    assert(t[2].0[0] != t[47].0[0]);
    assert(t[3].0[0] != t[47].0[0]);
    assert(t[5].0[0] != t[47].0[0]);
    assert(t[6].0[0] != t[47].0[0]);
    assert(t[12].0[0] != t[47].0[0]);
    assert(t[19].0[0] != t[47].0[0]);
    assert(t[24].0[0] != t[47].0[0]);
    assert(t[25].0[0] != t[47].0[0]);
    assert(t[31].0[0] != t[47].0[0]);
    assert(t[35].0[1] != t[47].0[1]);
    assert(t[44].0[0] != t[47].0[0]);
    assert(t[46].0[0] != t[47].0[0]);
    assert forall|j: int| 0 <= j < 47 implies (#[trigger] t[j]).0 != t[47].0 by {
        assert(t[j].0.len() != t[47].0.len() || t[j].0 != t[47].0);
    }
    lemma_table_index_at(t, "tahoma.ttf"@, 0, 47);
    assert(t[9].0[0] != t[48].0[0]);
    assert(t[10].0[0] != t[48].0[0]);
    assert(t[13].0[0] != t[48].0[0]);
    assert(t[15].0[0] != t[48].0[0]);
    assert(t[23].0[0] != t[48].0[0]);
    assert(t[26].0[0] != t[48].0[0]);
    assert(t[38].0[0] != t[48].0[0]);
    assert(t[39].0[0] != t[48].0[0]);
    assert(t[40].0[0] != t[48].0[0]);
    assert(t[41].0[0] != t[48].0[0]);
    assert forall|j: int| 0 <= j < 48 implies (#[trigger] t[j]).0 != t[48].0 by {
        assert(t[j].0.len() != t[48].0.len() || t[j].0 != t[48].0);
    }
    lemma_table_index_at(t, "tahomabd.ttf"@, 0, 48);
    assert(t[4].0[0] != t[49].0[0]);
    assert(t[8].0[0] != t[49].0[0]);
    assert(t[11].0[0] != t[49].0[0]);
    assert(t[14].0[0] != t[49].0[0]);
    assert(t[20].0[0] != t[49].0[0]);
    assert(t[30].0[0] != t[49].0[0]);
    assert(t[32].0[0] != t[49].0[0]);
    assert(t[34].0[0] != t[49].0[0]);
    assert(t[36].0[0] != t[49].0[0]);
    assert(t[37].0[0] != t[49].0[0]);
    assert forall|j: int| 0 <= j < 49 implies (#[trigger] t[j]).0 != t[49].0 by {
        assert(t[j].0.len() != t[49].0.len() || t[j].0 != t[49].0);
    }
    lemma_table_index_at(t, "verdana.ttf"@, 0, 49);
    assert(t[9].0[0] != t[50].0[0]);
    assert(t[10].0[0] != t[50].0[0]);
    assert(t[13].0[0] != t[50].0[0]);
    assert(t[15].0[0] != t[50].0[0]);
    assert(t[23].0[0] != t[50].0[0]);
    assert(t[26].0[0] != t[50].0[0]);
    assert(t[38].0[0] != t[50].0[0]);
    assert(t[39].0[0] != t[50].0[0]);
    assert(t[40].0[0] != t[50].0[0]);
    assert(t[41].0[0] != t[50].0[0]);
    assert(t[48].0[0] != t[50].0[0]);
    assert forall|j: int| 0 <= j < 50 implies (#[trigger] t[j]).0 != t[50].0 by {
        assert(t[j].0.len() != t[50].0.len() || t[j].0 != t[50].0);
    }
    lemma_table_index_at(t, "verdanab.ttf"@, 0, 50);
    assert(t[9].0[0] != t[51].0[0]);
    assert(t[10].0[0] != t[51].0[0]);
    assert(t[13].0[0] != t[51].0[0]);
    assert(t[15].0[0] != t[51].0[0]);
    assert(t[23].0[0] != t[51].0[0]);
    assert(t[26].0[0] != t[51].0[0]);
    assert(t[38].0[0] != t[51].0[0]);
    assert(t[39].0[0] != t[51].0[0]);
    assert(t[40].0[0] != t[51].0[0]);
    assert(t[41].0[0] != t[51].0[0]);
    assert(t[48].0[0] != t[51].0[0]);
    assert(t[50].0[7] != t[51].0[7]);
    assert forall|j: int| 0 <= j < 51 implies (#[trigger] t[j]).0 != t[51].0 by {
        assert(t[j].0.len() != t[51].0.len() || t[j].0 != t[51].0);
    }
    lemma_table_index_at(t, "verdanai.ttf"@, 0, 51);
    assert(t[9].0[0] != t[52].0[0]);
    assert(t[10].0[0] != t[52].0[0]);
    assert(t[13].0[0] != t[52].0[0]);
    assert(t[15].0[0] != t[52].0[0]);
    assert(t[23].0[0] != t[52].0[0]);
    assert(t[26].0[0] != t[52].0[0]);
    assert(t[38].0[0] != t[52].0[0]);
    assert(t[39].0[0] != t[52].0[0]);
    assert(t[40].0[0] != t[52].0[0]);
    assert(t[41].0[0] != t[52].0[0]);
    assert(t[48].0[0] != t[52].0[0]);
    assert(t[50].0[7] != t[52].0[7]);
    assert(t[51].0[7] != t[52].0[7]);
    assert forall|j: int| 0 <= j < 52 implies (#[trigger] t[j]).0 != t[52].0 by {
        assert(t[j].0.len() != t[52].0.len() || t[j].0 != t[52].0);
    }
    lemma_table_index_at(t, "verdanaz.ttf"@, 0, 52);
    assert(t[4].0[1] != t[53].0[1]);
    assert(t[8].0[1] != t[53].0[1]);
    assert(t[11].0[1] != t[53].0[1]);
    assert(t[14].0[1] != t[53].0[1]);
    assert(t[20].0[0] != t[53].0[0]);
    assert(t[30].0[0] != t[53].0[0]);
    assert(t[32].0[0] != t[53].0[0]);
    assert(t[34].0[0] != t[53].0[0]);
    assert(t[36].0[0] != t[53].0[0]);
    assert(t[37].0[0] != t[53].0[0]);
    assert(t[49].0[0] != t[53].0[0]);
    assert forall|j: int| 0 <= j < 53 implies (#[trigger] t[j]).0 != t[53].0 by {
        assert(t[j].0.len() != t[53].0.len() || t[j].0 != t[53].0);
    }
    lemma_table_index_at(t, "segoeui.ttf"@, 0, 53);
    assert(t[9].0[0] != t[54].0[0]);
    assert(t[10].0[1] != t[54].0[1]);
    assert(t[13].0[1] != t[54].0[1]);
    assert(t[15].0[1] != t[54].0[1]);
    assert(t[23].0[1] != t[54].0[1]);
    assert(t[26].0[1] != t[54].0[1]);
    assert(t[38].0[0] != t[54].0[0]);
    assert(t[39].0[0] != t[54].0[0]);
    assert(t[40].0[0] != t[54].0[0]);
    assert(t[41].0[0] != t[54].0[0]);
    assert(t[48].0[0] != t[54].0[0]);
    assert(t[50].0[0] != t[54].0[0]);
    assert(t[51].0[0] != t[54].0[0]);
    assert(t[52].0[0] != t[54].0[0]);
    assert forall|j: int| 0 <= j < 54 implies (#[trigger] t[j]).0 != t[54].0 by {
        assert(t[j].0.len() != t[54].0.len() || t[j].0 != t[54].0);
    }
    lemma_table_index_at(t, "segoeuib.ttf"@, 0, 54);
    assert(t[9].0[0] != t[55].0[0]);
    assert(t[10].0[1] != t[55].0[1]);
    assert(t[13].0[1] != t[55].0[1]);
    assert(t[15].0[1] != t[55].0[1]);
    assert(t[23].0[1] != t[55].0[1]);
    assert(t[26].0[1] != t[55].0[1]);
    assert(t[38].0[0] != t[55].0[0]);
    assert(t[39].0[0] != t[55].0[0]);
    assert(t[40].0[0] != t[55].0[0]);
    assert(t[41].0[0] != t[55].0[0]);
    assert(t[48].0[0] != t[55].0[0]);
    assert(t[50].0[0] != t[55].0[0]);
    assert(t[51].0[0] != t[55].0[0]);
    assert(t[52].0[0] != t[55].0[0]);
    assert(t[54].0[7] != t[55].0[7]);
    assert forall|j: int| 0 <= j < 55 implies (#[trigger] t[j]).0 != t[55].0 by {
        assert(t[j].0.len() != t[55].0.len() || t[j].0 != t[55].0);
    }
    lemma_table_index_at(t, "segoeuii.ttf"@, 0, 55);
    assert(t[9].0[0] != t[56].0[0]);
    assert(t[10].0[1] != t[56].0[1]);
    assert(t[13].0[1] != t[56].0[1]);
    assert(t[15].0[1] != t[56].0[1]);
    assert(t[23].0[1] != t[56].0[1]);
    assert(t[26].0[1] != t[56].0[1]);
    assert(t[38].0[0] != t[56].0[0]);
    assert(t[39].0[0] != t[56].0[0]);
    assert(t[40].0[0] != t[56].0[0]);
    assert(t[41].0[0] != t[56].0[0]);
    assert(t[48].0[0] != t[56].0[0]);
    assert(t[50].0[0] != t[56].0[0]);
    assert(t[51].0[0] != t[56].0[0]);
    assert(t[52].0[0] != t[56].0[0]);
    assert(t[54].0[7] != t[56].0[7]);
    assert(t[55].0[7] != t[56].0[7]);
    assert forall|j: int| 0 <= j < 56 implies (#[trigger] t[j]).0 != t[56].0 by {
        assert(t[j].0.len() != t[56].0.len() || t[j].0 != t[56].0);
    }
    lemma_table_index_at(t, "segoeuiz.ttf"@, 0, 56);
    assert(t[9].0[0] != t[57].0[0]);
    assert(t[10].0[1] != t[57].0[1]);
    assert(t[13].0[1] != t[57].0[1]);
    assert(t[15].0[1] != t[57].0[1]);
    assert(t[23].0[1] != t[57].0[1]);
    assert(t[26].0[1] != t[57].0[1]);
    assert(t[38].0[0] != t[57].0[0]);
    assert(t[39].0[0] != t[57].0[0]);
    assert(t[40].0[0] != t[57].0[0]);
    assert(t[41].0[0] != t[57].0[0]);
    assert(t[48].0[0] != t[57].0[0]);
    assert(t[50].0[0] != t[57].0[0]);
    assert(t[51].0[0] != t[57].0[0]);
    assert(t[52].0[0] != t[57].0[0]);
    assert(t[54].0[7] != t[57].0[7]);
    assert(t[55].0[7] != t[57].0[7]);
    assert(t[56].0[7] != t[57].0[7]);
    assert forall|j: int| 0 <= j < 57 implies (#[trigger] t[j]).0 != t[57].0 by {
        assert(t[j].0.len() != t[57].0.len() || t[j].0 != t[57].0);
    }
    lemma_table_index_at(t, "segoeuil.ttf"@, 0, 57);
    assert(t[42].0[0] != t[58].0[0]);
    assert forall|j: int| 0 <= j < 58 implies (#[trigger] t[j]).0 != t[58].0 by {
        assert(t[j].0.len() != t[58].0.len() || t[j].0 != t[58].0);
    }
    lemma_table_index_at(t, "segoeuisb.ttf"@, 0, 58);
    assert(t[42].0[0] != t[59].0[0]);
    assert(t[58].0[8] != t[59].0[8]);
    assert forall|j: int| 0 <= j < 59 implies (#[trigger] t[j]).0 != t[59].0 by {
        assert(t[j].0.len() != t[59].0.len() || t[j].0 != t[59].0);
    }
    lemma_table_index_at(t, "segoeuisz.ttf"@, 0, 59);
    assert(t[42].0[0] != t[60].0[0]);
    assert(t[58].0[8] != t[60].0[8]);
    assert(t[59].0[8] != t[60].0[8]);
    assert forall|j: int| 0 <= j < 60 implies (#[trigger] t[j]).0 != t[60].0 by {
        assert(t[j].0.len() != t[60].0.len() || t[j].0 != t[60].0);
    }
    lemma_table_index_at(t, "segoeuisl.ttf"@, 0, 60);
    assert(t[42].0[0] != t[61].0[0]);
    assert(t[58].0[7] != t[61].0[7]);
    assert(t[59].0[7] != t[61].0[7]);
    assert(t[60].0[7] != t[61].0[7]);
    assert forall|j: int| 0 <= j < 61 implies (#[trigger] t[j]).0 != t[61].0 by {
        assert(t[j].0.len() != t[61].0.len() || t[j].0 != t[61].0);
    }
    lemma_table_index_at(t, "segoeuibl.ttf"@, 0, 61);
    assert(t[9].0[0] != t[62].0[0]);
    assert(t[10].0[0] != t[62].0[0]);
    assert(t[13].0[0] != t[62].0[0]);
    assert(t[15].0[0] != t[62].0[0]);
    assert(t[23].0[0] != t[62].0[0]);
    assert(t[26].0[0] != t[62].0[0]);
    assert(t[38].0[0] != t[62].0[0]);
    assert(t[39].0[0] != t[62].0[0]);
    assert(t[40].0[0] != t[62].0[0]);
    assert(t[41].0[0] != t[62].0[0]);
    assert(t[48].0[0] != t[62].0[0]);
    assert(t[50].0[0] != t[62].0[0]);
    assert(t[51].0[0] != t[62].0[0]);
    assert(t[52].0[0] != t[62].0[0]);
    assert(t[54].0[0] != t[62].0[0]);
    assert(t[55].0[0] != t[62].0[0]);
    assert(t[56].0[0] != t[62].0[0]);
    assert(t[57].0[0] != t[62].0[0]);
    assert forall|j: int| 0 <= j < 62 implies (#[trigger] t[j]).0 != t[62].0 by {
        assert(t[j].0.len() != t[62].0.len() || t[j].0 != t[62].0);
    }
    lemma_table_index_at(t, "pingfang.ttc"@, 0, 62);
    assert(t[2].0[0] != t[63].0[0]);
    assert(t[3].0[1] != t[63].0[1]);
    assert(t[5].0[1] != t[63].0[1]);
    assert(t[6].0[1] != t[63].0[1]);
    assert(t[12].0[1] != t[63].0[1]);
    assert(t[19].0[1] != t[63].0[1]);
    assert(t[24].0[1] != t[63].0[1]);
    assert(t[25].0[1] != t[63].0[1]);
    assert(t[31].0[0] != t[63].0[0]);
    assert(t[35].0[0] != t[63].0[0]);
    assert(t[44].0[0] != t[63].0[0]);
    assert(t[46].0[0] != t[63].0[0]);
    assert(t[47].0[0] != t[63].0[0]);
    assert forall|j: int| 0 <= j < 63 implies (#[trigger] t[j]).0 != t[63].0 by {
        assert(t[j].0.len() != t[63].0.len() || t[j].0 != t[63].0);
    }
    lemma_table_index_at(t, "songti.ttc"@, 0, 63);
    assert(t[1].0[0] != t[64].0[0]);
    assert(t[7].0[8] != t[64].0[8]);
    assert(t[17].0[0] != t[64].0[0]);
    assert(t[18].0[0] != t[64].0[0]);
    assert(t[21].0[0] != t[64].0[0]);
    assert(t[22].0[0] != t[64].0[0]);
    assert(t[27].0[0] != t[64].0[0]);
    assert(t[28].0[0] != t[64].0[0]);
    assert(t[29].0[0] != t[64].0[0]);
    assert(t[33].0[0] != t[64].0[0]);
    assert(t[45].0[0] != t[64].0[0]);
    assert forall|j: int| 0 <= j < 64 implies (#[trigger] t[j]).0 != t[64].0 by {
        assert(t[j].0.len() != t[64].0.len() || t[j].0 != t[64].0);
    }
    lemma_table_index_at(t, "kaiti.ttc"@, 0, 64);
    assert(t[1].0[0] != t[65].0[0]);
    assert(t[7].0[0] != t[65].0[0]);
    assert(t[17].0[0] != t[65].0[0]);
    assert(t[18].0[0] != t[65].0[0]);
    assert(t[21].0[0] != t[65].0[0]);
    assert(t[22].0[0] != t[65].0[0]);
    assert(t[27].0[0] != t[65].0[0]);
    assert(t[28].0[0] != t[65].0[0]);
    assert(t[29].0[0] != t[65].0[0]);
    assert(t[33].0[0] != t[65].0[0]);
    assert(t[45].0[0] != t[65].0[0]);
    assert(t[64].0[0] != t[65].0[0]);
    assert forall|j: int| 0 <= j < 65 implies (#[trigger] t[j]).0 != t[65].0 by {
        assert(t[j].0.len() != t[65].0.len() || t[j].0 != t[65].0);
    }
    lemma_table_index_at(t, "heiti.ttc"@, 0, 65);
    assert(t[2].0[0] != t[66].0[0]);
    assert(t[3].0[0] != t[66].0[0]);
    assert(t[5].0[0] != t[66].0[0]);
    assert(t[6].0[0] != t[66].0[0]);
    assert(t[12].0[0] != t[66].0[0]);
    assert(t[19].0[0] != t[66].0[0]);
    assert(t[24].0[0] != t[66].0[0]);
    assert(t[25].0[0] != t[66].0[0]);
    assert(t[31].0[0] != t[66].0[0]);
    assert(t[35].0[0] != t[66].0[0]);
    assert(t[44].0[0] != t[66].0[0]);
    assert(t[46].0[0] != t[66].0[0]);
    assert(t[47].0[0] != t[66].0[0]);
    assert(t[63].0[0] != t[66].0[0]);
    assert forall|j: int| 0 <= j < 66 implies (#[trigger] t[j]).0 != t[66].0 by {
        assert(t[j].0.len() != t[66].0.len() || t[j].0 != t[66].0);
    }
    lemma_table_index_at(t, "yuanti.ttc"@, 0, 66);
    assert forall|j: int| 0 <= j < 67 implies (#[trigger] t[j]).0 != t[67].0 by {
        assert(t[j].0.len() != t[67].0.len() || t[j].0 != t[67].0);
    }
    lemma_table_index_at(t, "stheitilight.ttc"@, 0, 67);
    assert forall|j: int| 0 <= j < 68 implies (#[trigger] t[j]).0 != t[68].0 by {
        assert(t[j].0.len() != t[68].0.len() || t[j].0 != t[68].0);
    }
    lemma_table_index_at(t, "stheitimedium.ttc"@, 0, 68);
    assert forall|j: int| 0 <= j < 69 implies (#[trigger] t[j]).0 != t[69].0 by {
        assert(t[j].0.len() != t[69].0.len() || t[j].0 != t[69].0);
    }
    lemma_table_index_at(t, "hiraginosansgb.ttc"@, 0, 69);
    assert forall|j: int| 0 <= j < 70 implies (#[trigger] t[j]).0 != t[70].0 by {
        assert(t[j].0.len() != t[70].0.len() || t[j].0 != t[70].0);
    }
    lemma_table_index_at(t, "notosanscjk-regular.ttc"@, 0, 70);
    assert forall|j: int| 0 <= j < 71 implies (#[trigger] t[j]).0 != t[71].0 by {
        assert(t[j].0.len() != t[71].0.len() || t[j].0 != t[71].0);
    }
    lemma_table_index_at(t, "notosanscjk.ttc"@, 0, 71);
    assert forall|j: int| 0 <= j < 72 implies (#[trigger] t[j]).0 != t[72].0 by {
        assert(t[j].0.len() != t[72].0.len() || t[j].0 != t[72].0);
    }
    lemma_table_index_at(t, "notosanssc-regular.otf"@, 0, 72);
    assert(t[72].0[19] != t[73].0[19]);
    assert forall|j: int| 0 <= j < 73 implies (#[trigger] t[j]).0 != t[73].0 by {
        assert(t[j].0.len() != t[73].0.len() || t[j].0 != t[73].0);
    }
    lemma_table_index_at(t, "notosanssc-regular.ttf"@, 0, 73);
    assert forall|j: int| 0 <= j < 74 implies (#[trigger] t[j]).0 != t[74].0 by {
        assert(t[j].0.len() != t[74].0.len() || t[j].0 != t[74].0);
    }
    lemma_table_index_at(t, "notoserifcjk-regular.ttc"@, 0, 74);
    assert(t[67].0[0] != t[75].0[0]);
    assert forall|j: int| 0 <= j < 75 implies (#[trigger] t[j]).0 != t[75].0 by {
        assert(t[j].0.len() != t[75].0.len() || t[j].0 != t[75].0);
    }
    lemma_table_index_at(t, "notoserifcjk.ttc"@, 0, 75);
    assert(t[70].0[5] != t[76].0[5]);
    assert forall|j: int| 0 <= j < 76 implies (#[trigger] t[j]).0 != t[76].0 by {
        assert(t[j].0.len() != t[76].0.len() || t[j].0 != t[76].0);
    }
    lemma_table_index_at(t, "notoserifsc-regular.otf"@, 0, 76);
    assert(t[70].0[5] != t[77].0[5]);
    assert(t[76].0[20] != t[77].0[20]);
    assert forall|j: int| 0 <= j < 77 implies (#[trigger] t[j]).0 != t[77].0 by {
        assert(t[j].0.len() != t[77].0.len() || t[j].0 != t[77].0);
    }
    lemma_table_index_at(t, "notoserifsc-regular.ttf"@, 0, 77);
    assert forall|j: int| 0 <= j < 78 implies (#[trigger] t[j]).0 != t[78].0 by {
        assert(t[j].0.len() != t[78].0.len() || t[j].0 != t[78].0);
    }
    lemma_table_index_at(t, "wenquanyimicrohei.ttf"@, 0, 78);
    assert(t[67].0[0] != t[79].0[0]);
    assert(t[75].0[0] != t[79].0[0]);
    assert forall|j: int| 0 <= j < 79 implies (#[trigger] t[j]).0 != t[79].0 by {
        assert(t[j].0.len() != t[79].0.len() || t[j].0 != t[79].0);
    }
    lemma_table_index_at(t, "wqy-microhei.ttc"@, 0, 79);
    assert forall|j: int| 0 <= j < 80 implies (#[trigger] t[j]).0 != t[80].0 by {
        assert(t[j].0.len() != t[80].0.len() || t[j].0 != t[80].0);
    }
    lemma_table_index_at(t, "wenquanyizenhei.ttf"@, 0, 80);
    assert forall|j: int| 0 <= j < 81 implies (#[trigger] t[j]).0 != t[81].0 by {
        assert(t[j].0.len() != t[81].0.len() || t[j].0 != t[81].0);
    }
    lemma_table_index_at(t, "wqy-zenhei.ttc"@, 0, 81);
}

/// The names of the well-known font files: each file the picker knows gets
/// the Chinese and English names of its own typeface (`simhei.ttf` is 黑体 /
/// SimHei, `simkai.ttf` and `kaiti.ttf` are 楷体 / KaiTi, and so on for every
/// known file), and a file name that is not one of these gets no names.
pub proof fn lemma_known_font_names(f: Seq<char>)
    ensures
        known_font(f) is Some ==> exists|k: int| 0 <= k < font_table().len() && font_table()[k].0 == f,
        known_font("msyh.ttc"@) == Some(("微软雅黑"@, "Microsoft YaHei"@)),
        known_font("msyhl.ttc"@) == Some(("微软雅黑 Light"@, "Microsoft YaHei Light"@)),
        known_font("msyhbd.ttc"@) == Some(("微软雅黑 Bold"@, "Microsoft YaHei Bold"@)),
        known_font("simsun.ttc"@) == Some(("宋体 / 新宋体"@, "SimSun"@)),
        known_font("simsunb.ttf"@) == Some(("宋体扩展"@, "SimSun-ExtB"@)),
        known_font("simhei.ttf"@) == Some(("黑体"@, "SimHei"@)),
        known_font("simkai.ttf"@) == Some(("楷体"@, "KaiTi"@)),
        known_font("kaiti.ttf"@) == Some(("楷体"@, "KaiTi"@)),
        known_font("simfang.ttf"@) == Some(("仿宋"@, "FangSong"@)),
        known_font("fangsong.ttf"@) == Some(("仿宋"@, "FangSong"@)),
        known_font("stxingka.ttf"@) == Some(("华文行楷"@, "STXingkai"@)),
        known_font("stkaiti.ttf"@) == Some(("华文楷体"@, "STKaiti"@)),
        known_font("stsong.ttf"@) == Some(("华文宋体"@, "STSong"@)),
        known_font("stfangso.ttf"@) == Some(("华文仿宋"@, "STFangsong"@)),
        known_font("stxihei.ttf"@) == Some(("华文细黑"@, "STXihei"@)),
        known_font("stzhongh.ttf"@) == Some(("华文中宋"@, "STZhongsong"@)),
        known_font("deng.ttf"@) == Some(("等线"@, "DengXian"@)),
        known_font("dengb.ttf"@) == Some(("等线 Bold"@, "DengXian Bold"@)),
        known_font("dengl.ttf"@) == Some(("等线 Light"@, "DengXian Light"@)),
        known_font("simyou.ttf"@) == Some(("幼圆"@, "YouYuan"@)),
        known_font("youyuan.ttf"@) == Some(("幼圆"@, "YouYuan"@)),
        known_font("simli.ttf"@) == Some(("隶书"@, "LiSu"@)),
        known_font("lishu.ttf"@) == Some(("隶书"@, "LiSu"@)),
        known_font("stcaiyun.ttf"@) == Some(("华文彩云"@, "STCaiyun"@)),
        known_font("sthupo.ttf"@) == Some(("华文琥珀"@, "STHupo"@)),
        known_font("stliti.ttf"@) == Some(("华文隶书"@, "STLiti"@)),
        known_font("stxinwei.ttf"@) == Some(("华文新魏"@, "STXinwei"@)),
        known_font("fzstk.ttf"@) == Some(("方正舒体"@, "FZShuTi"@)),
        known_font("fzytk.ttf"@) == Some(("方正姚体"@, "FZYaoTi"@)),
        known_font("arial.ttf"@) == Some(("Arial"@, "Arial"@)),
        known_font("arialbd.ttf"@) == Some(("Arial Bold"@, "Arial Bold"@)),
        known_font("ariali.ttf"@) == Some(("Arial Italic"@, "Arial Italic"@)),
        known_font("arialbi.ttf"@) == Some(("Arial Bold Italic"@, "Arial Bold Italic"@)),
        known_font("times.ttf"@) == Some(("Times New Roman"@, "Times New Roman"@)),
        known_font("timesbd.ttf"@) == Some(("Times New Roman Bold"@, "Times New Roman Bold"@)),
        known_font("timesi.ttf"@) == Some(("Times New Roman Italic"@, "Times New Roman Italic"@)),
        known_font("timesbi.ttf"@) == Some(("Times New Roman Bold Italic"@, "Times New Roman Bold Italic"@)),
        known_font("calibri.ttf"@) == Some(("Calibri"@, "Calibri"@)),
        known_font("calibrib.ttf"@) == Some(("Calibri Bold"@, "Calibri Bold"@)),
        known_font("calibrii.ttf"@) == Some(("Calibri Italic"@, "Calibri Italic"@)),
        known_font("calibriz.ttf"@) == Some(("Calibri Bold Italic"@, "Calibri Bold Italic"@)),
        known_font("calibril.ttf"@) == Some(("Calibri Light"@, "Calibri Light"@)),
        known_font("calibrili.ttf"@) == Some(("Calibri Light Italic"@, "Calibri Light Italic"@)),
        known_font("cour.ttf"@) == Some(("Courier New"@, "Courier New"@)),
        known_font("courbd.ttf"@) == Some(("Courier New Bold"@, "Courier New Bold"@)),
        known_font("couri.ttf"@) == Some(("Courier New Italic"@, "Courier New Italic"@)),
        known_font("courbi.ttf"@) == Some(("Courier New Bold Italic"@, "Courier New Bold Italic"@)),
        known_font("tahoma.ttf"@) == Some(("Tahoma"@, "Tahoma"@)),
        known_font("tahomabd.ttf"@) == Some(("Tahoma Bold"@, "Tahoma Bold"@)),
        known_font("verdana.ttf"@) == Some(("Verdana"@, "Verdana"@)),
        known_font("verdanab.ttf"@) == Some(("Verdana Bold"@, "Verdana Bold"@)),
        known_font("verdanai.ttf"@) == Some(("Verdana Italic"@, "Verdana Italic"@)),
        known_font("verdanaz.ttf"@) == Some(("Verdana Bold Italic"@, "Verdana Bold Italic"@)),
        known_font("segoeui.ttf"@) == Some(("Segoe UI"@, "Segoe UI"@)),
        known_font("segoeuib.ttf"@) == Some(("Segoe UI Bold"@, "Segoe UI Bold"@)),
        known_font("segoeuii.ttf"@) == Some(("Segoe UI Italic"@, "Segoe UI Italic"@)),
        known_font("segoeuiz.ttf"@) == Some(("Segoe UI Bold Italic"@, "Segoe UI Bold Italic"@)),
        known_font("segoeuil.ttf"@) == Some(("Segoe UI Light"@, "Segoe UI Light"@)),
        known_font("segoeuisb.ttf"@) == Some(("Segoe UI Semibold"@, "Segoe UI Semibold"@)),
        known_font("segoeuisz.ttf"@) == Some(("Segoe UI Semibold Italic"@, "Segoe UI Semibold Italic"@)),
        known_font("segoeuisl.ttf"@) == Some(("Segoe UI Semilight"@, "Segoe UI Semilight"@)),
        known_font("segoeuibl.ttf"@) == Some(("Segoe UI Black"@, "Segoe UI Black"@)),
        known_font("pingfang.ttc"@) == Some(("苹方"@, "PingFang SC"@)),
        known_font("songti.ttc"@) == Some(("宋体"@, "Songti SC"@)),
        known_font("kaiti.ttc"@) == Some(("楷体"@, "Kaiti SC"@)),
        known_font("heiti.ttc"@) == Some(("黑体"@, "Heiti SC"@)),
        known_font("yuanti.ttc"@) == Some(("圆体"@, "Yuanti SC"@)),
        known_font("stheitilight.ttc"@) == Some(("华文细黑"@, "STHeiti Light"@)),
        known_font("stheitimedium.ttc"@) == Some(("华文黑体"@, "STHeiti Medium"@)),
        known_font("hiraginosansgb.ttc"@) == Some(("冬青黑体"@, "Hiragino Sans GB"@)),
        known_font("notosanscjk-regular.ttc"@) == Some(("思源黑体"@, "Noto Sans SC"@)),
        known_font("notosanscjk.ttc"@) == Some(("思源黑体"@, "Noto Sans SC"@)),
        known_font("notosanssc-regular.otf"@) == Some(("思源黑体"@, "Noto Sans SC"@)),
        known_font("notosanssc-regular.ttf"@) == Some(("思源黑体"@, "Noto Sans SC"@)),
        known_font("notoserifcjk-regular.ttc"@) == Some(("思源宋体"@, "Noto Serif SC"@)),
        known_font("notoserifcjk.ttc"@) == Some(("思源宋体"@, "Noto Serif SC"@)),
        known_font("notoserifsc-regular.otf"@) == Some(("思源宋体"@, "Noto Serif SC"@)),
        known_font("notoserifsc-regular.ttf"@) == Some(("思源宋体"@, "Noto Serif SC"@)),
        known_font("wenquanyimicrohei.ttf"@) == Some(("文泉驿微米黑"@, "WenQuanYi Micro Hei"@)),
        known_font("wqy-microhei.ttc"@) == Some(("文泉驿微米黑"@, "WenQuanYi Micro Hei"@)),
        known_font("wenquanyizenhei.ttf"@) == Some(("文泉驿正黑"@, "WenQuanYi Zen Hei"@)),
        known_font("wqy-zenhei.ttc"@) == Some(("文泉驿正黑"@, "WenQuanYi Zen Hei"@)),
{
    lemma_table_index_found(font_table(), f, 0);
    lemma_known_font_positions();
}

} // verus!
