//! Parameter vocabulary: paragraph alignment, how a miswritten character is
//! rewritten and struck out, and `#RRGGBB` colours.

use vstd::prelude::*;
use crate::text::{str_eq, push_str, trim_str, hex_value, is_ascii_hexdigit, spec_is_ascii_hexdigit, spec_hex_value, trim_seq};

verus! {

/// Rust's `Debug` rendering of a string: quoted, with quotes, backslashes and
/// control characters escaped.
pub uninterp spec fn debug_quoted(s: Seq<char>) -> Seq<char>;

/// The `Debug` rendering of `s` (`format!("{s:?}")`).
#[verifier::external_body]
fn debug_quote(s: &str) -> (r: String)
    ensures
        r@ == debug_quoted(s@),
{
    format!("{s:?}")
}

/// `prefix + debug(s) + suffix`, the shape of every parse error message.
pub open spec fn quoted_message(prefix: Seq<char>, s: Seq<char>, suffix: Seq<char>) -> Seq<char> {
    prefix + debug_quoted(s) + suffix
}

fn quoted_message_exec(prefix: &str, s: &str, suffix: &str) -> (r: String)
    ensures
        r@ == quoted_message(prefix@, s@, suffix@),
{
    let mut m = String::new();
    push_str(&mut m, prefix);
    let q = debug_quote(s);
    push_str(&mut m, q.as_str());
    push_str(&mut m, suffix);
    m
}

// ---------------------------------------------------------------------------
// Align
// ---------------------------------------------------------------------------
/// Paragraph alignment.
#[derive(Debug, Clone, Copy, PartialEq, Eq, Structural, Default)]
pub enum Align {
    #[default]
    Left,
    Center,
    Right,
}

pub open spec fn align_name(a: Align) -> Seq<char> {
    match a {
        Align::Left => "left"@,
        Align::Center => "center"@,
        Align::Right => "right"@,
    }
}

/// The alignment a name stands for.
pub open spec fn align_of_name(s: Seq<char>) -> Option<Align> {
    if s == "left"@ {
        Some(Align::Left)
    } else if s == "center"@ {
        Some(Align::Center)
    } else if s == "right"@ {
        Some(Align::Right)
    } else {
        None
    }
}

impl Align {
    /// Parses "left", "center" or "right".
    pub fn parse(s: &str) -> (r: Result<Align, String>)
        ensures
            r matches Ok(a) ==> align_of_name(s@) == Some(a),
            r matches Err(msg) ==> align_of_name(s@) is None && msg@ == quoted_message(
                "未知对齐方式："@,
                s@,
                "，可选 left/center/right"@,
            ),
    {
        if str_eq(s, "left") {
            Ok(Align::Left)
        } else if str_eq(s, "center") {
            Ok(Align::Center)
        } else if str_eq(s, "right") {
            Ok(Align::Right)
        } else {
            Err(quoted_message_exec("未知对齐方式：", s, "，可选 left/center/right"))
        }
    }

    /// The name `parse` accepts for this alignment.
    pub fn as_str(&self) -> (r: &'static str)
        ensures
            r@ == align_name(*self),
    {
        match self {
            Align::Left => "left",
            Align::Center => "center",
            Align::Right => "right",
        }
    }
}

// ---------------------------------------------------------------------------
// MiswriteMode
// ---------------------------------------------------------------------------
/// Where a struck-out character is written again.
#[derive(Debug, Clone, Copy, PartialEq, Eq, Structural, Default)]
pub enum MiswriteMode {
    /// Slightly above and to the right of the struck-out character, smaller.
    #[default]
    Above,
    /// At the next regular position, after the struck-out character.
    Rewrite,
}

pub open spec fn miswrite_mode_name(m: MiswriteMode) -> Seq<char> {
    match m {
        MiswriteMode::Above => "above"@,
        MiswriteMode::Rewrite => "rewrite"@,
    }
}

/// The rewrite mode a name stands for.
pub open spec fn miswrite_mode_of_name(s: Seq<char>) -> Option<MiswriteMode> {
    if s == "above"@ {
        Some(MiswriteMode::Above)
    } else if s == "rewrite"@ {
        Some(MiswriteMode::Rewrite)
    } else {
        None
    }
}

impl MiswriteMode {
    /// The name `parse` accepts for this mode.
    pub fn as_str(&self) -> (r: &'static str)
        ensures
            r@ == miswrite_mode_name(*self),
    {
        match self {
            MiswriteMode::Above => "above",
            MiswriteMode::Rewrite => "rewrite",
        }
    }

    /// Parses "above" or "rewrite".
    pub fn parse(s: &str) -> (r: Result<MiswriteMode, String>)
        ensures
            r matches Ok(m) ==> miswrite_mode_of_name(s@) == Some(m),
            r matches Err(msg) ==> miswrite_mode_of_name(s@) is None && msg@ == quoted_message("未知重写方式："@, s@, "，可选 above/rewrite"@),
    {
        if str_eq(s, "above") {
            Ok(MiswriteMode::Above)
        } else if str_eq(s, "rewrite") {
            Ok(MiswriteMode::Rewrite)
        } else {
            Err(quoted_message_exec("未知重写方式：", s, "，可选 above/rewrite"))
        }
    }
}

// ---------------------------------------------------------------------------
// StrikeoutStyle
// ---------------------------------------------------------------------------
/// How a miswritten character is struck out.
#[derive(Debug, Clone, Copy, PartialEq, Eq, Structural, Default)]
pub enum StrikeoutStyle {
    /// One horizontal line.
    #[default]
    Line,
    /// Two horizontal lines.
    DoubleLine,
    /// A slash.
    Slash,
    /// A cross.
    Cross,
}

pub open spec fn strikeout_name(s: StrikeoutStyle) -> Seq<char> {
    match s {
        StrikeoutStyle::Line => "line"@,
        StrikeoutStyle::DoubleLine => "double_line"@,
        StrikeoutStyle::Slash => "slash"@,
        StrikeoutStyle::Cross => "cross"@,
    }
}

/// The strike-out style a name stands for.
pub open spec fn strikeout_of_name(s: Seq<char>) -> Option<StrikeoutStyle> {
    if s == "line"@ {
        Some(StrikeoutStyle::Line)
    } else if s == "double_line"@ {
        Some(StrikeoutStyle::DoubleLine)
    } else if s == "slash"@ {
        Some(StrikeoutStyle::Slash)
    } else if s == "cross"@ {
        Some(StrikeoutStyle::Cross)
    } else {
        None
    }
}

impl StrikeoutStyle {
    /// The name `parse` accepts for this style.
    pub fn as_str(&self) -> (r: &'static str)
        ensures
            r@ == strikeout_name(*self),
    {
        match self {
            StrikeoutStyle::Line => "line",
            StrikeoutStyle::DoubleLine => "double_line",
            StrikeoutStyle::Slash => "slash",
            StrikeoutStyle::Cross => "cross",
        }
    }

    /// Parses "line", "double_line", "slash" or "cross".
    pub fn parse(s: &str) -> (r: Result<StrikeoutStyle, String>)
        ensures
            r matches Ok(st) ==> strikeout_of_name(s@) == Some(st),
            r matches Err(msg) ==> strikeout_of_name(s@) is None && msg@ == quoted_message(
                "未知涂改方式："@,
                s@,
                "，可选 line/double_line/slash/cross"@,
            ),
    {
        if str_eq(s, "line") {
            Ok(StrikeoutStyle::Line)
        } else if str_eq(s, "double_line") {
            Ok(StrikeoutStyle::DoubleLine)
        } else if str_eq(s, "slash") {
            Ok(StrikeoutStyle::Slash)
        } else if str_eq(s, "cross") {
            Ok(StrikeoutStyle::Cross)
        } else {
            Err(quoted_message_exec("未知涂改方式：", s, "，可选 line/double_line/slash/cross"))
        }
    }
}

/// Parsing the name of an alignment gives that alignment back.
pub proof fn lemma_align_roundtrip(a: Align)
    ensures
        align_of_name(align_name(a)) == Some(a),
{
    reveal_strlit("left");
    reveal_strlit("center");
    reveal_strlit("right");
    assert("left"@[0] != "center"@[0] && "left"@[0] != "right"@[0] && "center"@[0] != "right"@[0]);
}

/// Parsing the name of a rewrite mode gives that mode back.
pub proof fn lemma_miswrite_mode_roundtrip(m: MiswriteMode)
    ensures
        miswrite_mode_of_name(miswrite_mode_name(m)) == Some(m),
{
    reveal_strlit("above");
    reveal_strlit("rewrite");
    assert("above"@[0] != "rewrite"@[0]);
}

/// Parsing the name of a strike-out style gives that style back.
pub proof fn lemma_strikeout_roundtrip(st: StrikeoutStyle)
    ensures
        strikeout_of_name(strikeout_name(st)) == Some(st),
{
    reveal_strlit("line");
    reveal_strlit("double_line");
    reveal_strlit("slash");
    reveal_strlit("cross");
    assert("line"@[0] != "double_line"@[0] && "line"@[0] != "slash"@[0] && "line"@[0] != "cross"@[0]);
    assert("double_line"@[0] != "slash"@[0] && "double_line"@[0] != "cross"@[0]);
    assert("slash"@[0] != "cross"@[0]);
}

// ---------------------------------------------------------------------------
// Colours
// ---------------------------------------------------------------------------
/// Problems found in handwriting parameters.
#[derive(Debug)]
pub enum ParamsError {
    NoText,
    NoFont,
    FontMissing(String),
    NoBackground,
    BackgroundMissing(String),
    BackgroundPageMissing { page: usize, path: String },
    RegionSize { index: usize },
    RegionPosition { index: usize },
    RegionPage { index: usize },
    RegionFontMissing { index: usize, path: String },
    RegionFontSize { index: usize },
    RoleFontMissing { index: usize, path: String },
    Negative { name: &'static str },
    OutOfRangeColor { value: u8 },
    InvalidColor(String),
    NoLineSpacing,
}

/// `s` with every leading `#` removed.
pub open spec fn skip_hashes(s: Seq<char>) -> Seq<char>
    decreases s.len(),
{
    if s.len() > 0 && s[0] == '#' {
        skip_hashes(s.skip(1))
    } else {
        s
    }
}

/// The six hex digits of a colour string: trimmed, leading `#`s removed.
pub open spec fn colour_digits(s: Seq<char>) -> Seq<char> {
    skip_hashes(trim_seq(s))
}

pub open spec fn is_colour(s: Seq<char>) -> bool {
    let h = colour_digits(s);
    h.len() == 6 && forall|k: int| 0 <= k < 6 ==> spec_is_ascii_hexdigit(#[trigger] h[k])
}

pub open spec fn colour_value(s: Seq<char>) -> [u8; 3] {
    let h = colour_digits(s);
    [
        (spec_hex_value(h[0]) * 16 + spec_hex_value(h[1])) as u8,
        (spec_hex_value(h[2]) * 16 + spec_hex_value(h[3])) as u8,
        (spec_hex_value(h[4]) * 16 + spec_hex_value(h[5])) as u8,
    ]
}

/// Parses `#RRGGBB` (also without `#`), surrounding whitespace allowed.
pub fn parse_color(s: &str) -> (r: Result<[u8; 3], ParamsError>)
    ensures
        is_colour(s@) ==> r == Ok::<[u8; 3], ParamsError>(colour_value(s@)),
        !is_colour(s@) ==> (r matches Err(ParamsError::InvalidColor(t)) && t@ == s@),
{
    let t = trim_str(s);
    let mut k: usize = 0;
    assert(t@.skip(0) =~= t@);
    while k < t.len() && t[k] == '#'
        invariant
            k <= t.len(),
            t@ == trim_seq(s@),
            skip_hashes(t@) == skip_hashes(t@.skip(k as int)),
        decreases t.len() - k,
    {
        assert(t@.skip(k as int).skip(1) =~= t@.skip(k + 1));
        k += 1;
    }
    assert(skip_hashes(t@.skip(k as int)) == t@.skip(k as int));
    assert(colour_digits(s@) == t@.skip(k as int));
    let n = t.len() - k;
    if n != 6 {
        return Err(ParamsError::InvalidColor(s.to_owned()));
    }
    let mut i: usize = 0;
    while i < 6
        invariant
            n == 6,
            k + 6 == t.len(),
            colour_digits(s@) == t@.skip(k as int),
            i <= 6,
            forall|m: int| 0 <= m < i ==> spec_is_ascii_hexdigit(#[trigger] t@[k + m]),
        decreases 6 - i,
    {
        if !is_ascii_hexdigit(t[k + i]) {
            proof {
                assert(t@.skip(k as int)[i as int] == t@[k + i]);
            }
            return Err(ParamsError::InvalidColor(s.to_owned()));
        }
        i += 1;
    }
    proof {
        let h = t@.skip(k as int);
        assert forall|m: int| 0 <= m < 6 implies spec_is_ascii_hexdigit(#[trigger] h[m]) by {
            assert(h[m] == t@[k + m]);
        }
    }
    let r = hex_value(t[k]) * 16 + hex_value(t[k + 1]);
    let g = hex_value(t[k + 2]) * 16 + hex_value(t[k + 3]);
    let b = hex_value(t[k + 4]) * 16 + hex_value(t[k + 5]);
    proof {
        let h = t@.skip(k as int);
        assert(h[0] == t@[k as int] && h[1] == t@[k + 1] && h[2] == t@[k + 2]);
        assert(h[3] == t@[k + 3] && h[4] == t@[k + 4] && h[5] == t@[k + 5]);
    }
    Ok([r, g, b])
}

// ---------------------------------------------------------------------------
// Text from the user interface
// ---------------------------------------------------------------------------
/// Text with word joiners (U+2060) removed and no-break spaces (U+00A0,
/// U+FFA0) turned into plain spaces.
pub open spec fn spec_clean_text(s: Seq<char>) -> Seq<char>
    decreases s.len(),
{
    if s.len() == 0 {
        Seq::empty()
    } else {
        let c = s.last();
        spec_clean_text(s.drop_last()) + if c == '\u{2060}' {
            Seq::empty()
        } else if c == '\u{00a0}' || c == '\u{ffa0}' {
            seq![' ']
        } else {
            seq![c]
        }
    }
}

/// Normalises invisible and no-break spaces in text typed by the user.
pub fn clean_text(s: &str) -> (r: String)
    ensures
        r@ == spec_clean_text(s@),
{
    let cs = crate::text::chars_of(s);
    let mut out = String::new();
    let mut k: usize = 0;
    while k < cs.len()
        invariant
            k <= cs.len(),
            out@ == spec_clean_text(cs@.take(k as int)),
        decreases cs.len() - k,
    {
        let c = cs[k];
        assert(cs@.take(k + 1).drop_last() =~= cs@.take(k as int));
        if c == '\u{2060}' {
        } else if c == '\u{00a0}' || c == '\u{ffa0}' {
            out.push(' ');
        } else {
            out.push(c);
        }
        k += 1;
        assert(out@ =~= spec_clean_text(cs@.take(k as int)));
    }
    assert(cs@.take(cs.len() as int) =~= s@);
    out
}

// ---------------------------------------------------------------------------
// Form fields of the user interface
// ---------------------------------------------------------------------------
/// Alignment by its index in the form: 1 centre, 2 right, anything else left.
pub fn align_of(idx: i32) -> (r: Align)
    ensures
        r == (if idx == 1 {
            Align::Center
        } else if idx == 2 {
            Align::Right
        } else {
            Align::Left
        }),
{
    match idx {
        1 => Align::Center,
        2 => Align::Right,
        _ => Align::Left,
    }
}

/// Rewrite mode by its index in the form: 1 rewrites later, anything else
/// above.
pub fn miswrite_mode_of(idx: i32) -> (r: MiswriteMode)
    ensures
        r == (if idx == 1 {
            MiswriteMode::Rewrite
        } else {
            MiswriteMode::Above
        }),
{
    match idx {
        1 => MiswriteMode::Rewrite,
        _ => MiswriteMode::Above,
    }
}

pub open spec fn strikeout_of_index(idx: i32) -> StrikeoutStyle {
    if idx == 1 {
        StrikeoutStyle::DoubleLine
    } else if idx == 2 {
        StrikeoutStyle::Slash
    } else if idx == 3 {
        StrikeoutStyle::Cross
    } else {
        StrikeoutStyle::Line
    }
}

/// Strike-out style by its index in the form: 1 double line, 2 slash,
/// 3 cross, anything else a single line.
pub fn strikeout_style_of(idx: i32) -> (r: StrikeoutStyle)
    ensures
        r == strikeout_of_index(idx),
{
    match idx {
        1 => StrikeoutStyle::DoubleLine,
        2 => StrikeoutStyle::Slash,
        3 => StrikeoutStyle::Cross,
        _ => StrikeoutStyle::Line,
    }
}

/// An optional strike-out style: a negative index leaves it unset.
pub fn strikeout_style_opt(idx: i32) -> (r: Option<StrikeoutStyle>)
    ensures
        r == (if idx >= 0 {
            Some(strikeout_of_index(idx))
        } else {
            None
        }),
{
    if idx >= 0 {
        Some(strikeout_style_of(idx))
    } else {
        None
    }
}

/// An optional colour field: missing or blank means no colour; otherwise
/// the trimmed text must be a colour.
pub fn colour_field(value: Option<&str>) -> (r: Result<Option<[u8; 3]>, ParamsError>)
    ensures
        match value {
            None => r matches Ok(None),
            Some(v) => if trim_seq(v@).len() == 0 {
                r matches Ok(None)
            } else if is_colour(trim_seq(v@)) {
                r matches Ok(Some(c)) && c == colour_value(trim_seq(v@))
            } else {
                r matches Err(ParamsError::InvalidColor(t)) && t@ == trim_seq(v@)
            },
        },
{
    match value {
        None => Ok(None),
        Some(v) => {
            let t = trim_str(v);
            if t.len() == 0 {
                return Ok(None);
            }
            let ts = crate::text::string_of(t.as_slice());
            match parse_color(ts.as_str()) {
                Ok(c) => Ok(Some(c)),
                Err(e) => Err(e),
            }
        },
    }
}

/// Text that is not blank once cleaned.
pub open spec fn filled_text(s: Seq<char>) -> bool {
    trim_seq(spec_clean_text(s)).len() > 0
}

fn is_filled(s: &str) -> (r: bool)
    ensures
        r == filled_text(s@),
{
    let c = clean_text(s);
    trim_str(c.as_str()).len() > 0
}

/// A form paragraph is kept when its text or one of its runs' texts is not
/// blank once cleaned.
pub open spec fn keeps_paragraph_spec(text: Seq<char>, runs: Seq<Seq<char>>) -> bool {
    filled_text(text) || exists|k: int| 0 <= k < runs.len() && filled_text(#[trigger] runs[k])
}

pub open spec fn texts_view(v: Seq<String>) -> Seq<Seq<char>> {
    v.map_values(|s: String| s@)
}

/// Whether a form paragraph is kept (see `keeps_paragraph_spec`).
pub fn keeps_paragraph(text: &str, runs: &[String]) -> (r: bool)
    ensures
        r == keeps_paragraph_spec(text@, texts_view(runs@)),
{
    if is_filled(text) {
        return true;
    }
    let mut k: usize = 0;
    while k < runs.len()
        invariant
            k <= runs@.len(),
            forall|j: int| 0 <= j < k ==> !filled_text(#[trigger] texts_view(runs@)[j]),
        decreases runs@.len() - k,
    {
        if is_filled(runs[k].as_str()) {
            assert(filled_text(texts_view(runs@)[k as int]));
            return true;
        }
        k += 1;
    }
    false
}

/// The cleaned texts of the runs, one after another.
pub open spec fn cleaned_concat(runs: Seq<Seq<char>>) -> Seq<char>
    decreases runs.len(),
{
    if runs.len() == 0 {
        Seq::empty()
    } else {
        cleaned_concat(runs.drop_last()) + spec_clean_text(runs.last())
    }
}

/// A form paragraph's text: its own (cleaned), or, when it has none but has
/// runs, its runs' cleaned texts joined.
pub fn paragraph_text(text: &str, runs: &[String]) -> (r: String)
    ensures
        r@ == if text@.len() == 0 && runs@.len() > 0 {
            cleaned_concat(texts_view(runs@))
        } else {
            spec_clean_text(text@)
        },
{
    if text.unicode_len() == 0 && runs.len() > 0 {
        let mut out = String::new();
        let mut k: usize = 0;
        assert(texts_view(runs@).take(0) =~= Seq::<Seq<char>>::empty());
        while k < runs.len()
            invariant
                k <= runs@.len(),
                out@ == cleaned_concat(texts_view(runs@).take(k as int)),
            decreases runs@.len() - k,
        {
            let c = clean_text(runs[k].as_str());
            push_str(&mut out, c.as_str());
            assert(texts_view(runs@).take(k + 1).drop_last() =~= texts_view(runs@).take(k as int));
            k += 1;
        }
        assert(texts_view(runs@).take(k as int) =~= texts_view(runs@));
        out
    } else {
        clean_text(text)
    }
}

/// Text that is not blank.
pub open spec fn not_blank(s: Seq<char>) -> bool {
    trim_seq(s).len() > 0
}

/// Whether there is anything to write: main text, a paragraph's text or a
/// run's text, or a region's text, not blank.
pub open spec fn has_content_spec(
    text: Seq<char>,
    paragraphs: Seq<(Seq<char>, Seq<Seq<char>>)>,
    regions: Seq<Seq<char>>,
) -> bool {
    ||| not_blank(text)
    ||| exists|i: int|
        0 <= i < paragraphs.len() && (not_blank((#[trigger] paragraphs[i]).0) || exists|k: int|
            0 <= k < paragraphs[i].1.len() && not_blank(#[trigger] paragraphs[i].1[k]))
    ||| exists|i: int| 0 <= i < regions.len() && not_blank(#[trigger] regions[i])
}

pub open spec fn paras_texts_view(v: Seq<(String, Vec<String>)>) -> Seq<(Seq<char>, Seq<Seq<char>>)> {
    v.map_values(|p: (String, Vec<String>)| (p.0@, texts_view(p.1@)))
}

fn any_not_blank(v: &[String]) -> (r: bool)
    ensures
        r == exists|k: int| 0 <= k < v@.len() && not_blank(#[trigger] texts_view(v@)[k]),
{
    let mut k: usize = 0;
    while k < v.len()
        invariant
            k <= v@.len(),
            forall|j: int| 0 <= j < k ==> !not_blank(#[trigger] texts_view(v@)[j]),
        decreases v@.len() - k,
    {
        if trim_str(v[k].as_str()).len() > 0 {
            assert(not_blank(texts_view(v@)[k as int]));
            return true;
        }
        k += 1;
    }
    false
}

/// What is wrong with the placement of text region number `index` (from 1):
/// a size that is not positive, then a negative corner, then a page before
/// the first.
pub open spec fn spec_region_placement(index: usize, x: i32, y: i32, w: i32, h: i32, page: i32) -> Option<
    ParamsError,
> {
    if w <= 0 || h <= 0 {
        Some(ParamsError::RegionSize { index })
    } else if x < 0 || y < 0 {
        Some(ParamsError::RegionPosition { index })
    } else if page < 1 {
        Some(ParamsError::RegionPage { index })
    } else {
        None
    }
}

/// Checks the placement of text region number `index`: positive size,
/// corner not negative, page from 1 on.
pub fn region_placement_error(index: usize, x: i32, y: i32, w: i32, h: i32, page: i32) -> (r: Option<
    ParamsError,
>)
    ensures
        r == spec_region_placement(index, x, y, w, h, page),
{
    if w <= 0 || h <= 0 {
        Some(ParamsError::RegionSize { index })
    } else if x < 0 || y < 0 {
        Some(ParamsError::RegionPosition { index })
    } else if page < 1 {
        Some(ParamsError::RegionPage { index })
    } else {
        None
    }
}

/// Checks the font size of text region number `index`: not negative.
pub fn region_font_size_error(index: usize, font_size: i32) -> (r: Option<ParamsError>)
    ensures
        r == (if font_size < 0 { Some(ParamsError::RegionFontSize { index }) } else { None }),
{
    if font_size < 0 {
        Some(ParamsError::RegionFontSize { index })
    } else {
        None
    }
}

/// Whether handwriting parameters have anything to write (see
/// `has_content_spec`): `paragraphs` holds each paragraph's text and its
/// runs' texts, `regions` each region's text.
pub fn has_content(text: &str, paragraphs: &[(String, Vec<String>)], regions: &[String]) -> (r: bool)
    ensures
        r == has_content_spec(text@, paras_texts_view(paragraphs@), texts_view(regions@)),
{
    let ghost pv = paras_texts_view(paragraphs@);
    if trim_str(text).len() > 0 {
        return true;
    }
    let mut i: usize = 0;
    while i < paragraphs.len()
        invariant
            i <= paragraphs@.len(),
            pv == paras_texts_view(paragraphs@),
            forall|j: int|
                0 <= j < i ==> !(not_blank((#[trigger] pv[j]).0) || exists|k: int|
                    0 <= k < pv[j].1.len() && not_blank(#[trigger] pv[j].1[k])),
        decreases paragraphs@.len() - i,
    {
        let p = &paragraphs[i];
        assert(pv[i as int] == (p.0@, texts_view(p.1@)));
        if trim_str(p.0.as_str()).len() > 0 {
            assert(not_blank(pv[i as int].0));
            return true;
        }
        if any_not_blank(p.1.as_slice()) {
            let ghost k = choose|k: int| 0 <= k < p.1@.len() && not_blank(#[trigger] texts_view(p.1@)[k]);
            assert(pv[i as int].1[k] == texts_view(p.1@)[k]);
            assert(not_blank(pv[i as int].1[k]));
            return true;
        }
        i += 1;
    }
    any_not_blank(regions)
}

} // verus!
