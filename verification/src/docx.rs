//! Reading the parts of a Word document from their XML events: the style
//! sheet (`word/styles.xml`) and the body paragraphs (`word/document.xml`).

use vstd::prelude::*;
use crate::xmlread::{
    XmlEvent, XmlTag, attr_val, spec_attr_val, local_part, spec_local_part, is_named, opt_chars,
    read_xml_events, xml_events,
};
use crate::runs::{
    StyleDef, ParaFmt, parse_u32_str, parse_i32_str, spec_parse_i32, split_from, split_syntax_tags,
    split_roles_in_range, split_roles_ok, lemma_split_keys_growth, spec_trim_paragraph_runs,
    trim_paragraph_runs, runs_view, spec_resolve_align, resolve_align,
};
use crate::models::Align;
use crate::html::parse_u32_radix;
use crate::styles::{
    TextRun, TextRunStyle, StyleRegistry, register, plain_style, spec_is_gray_highlight,
    spec_parse_hex_color, hex_fields_cuttable, color_key, parse_hex_color, hex_cuttable,
};
use crate::text::{trim_seq, trim_str, spec_ascii_lower_seq, push_str};
use crate::xmlread::{xml_unescaped, unescape_text};

verus! {

// ---------------------------------------------------------------------------
// Attribute values as numbers
// ---------------------------------------------------------------------------
/// A `u32` attribute value (`str::parse::<u32>`), if there is one.
pub open spec fn num_u32(v: Option<Seq<char>>) -> Option<u32> {
    match v {
        Some(t) => match parse_u32_radix(t, 10) {
            Some(n) => Some(n as u32),
            None => None,
        },
        None => None,
    }
}

/// An `i32` attribute value (`str::parse::<i32>`), if there is one.
pub open spec fn num_i32(v: Option<Seq<char>>) -> Option<i32> {
    match v {
        Some(t) => match spec_parse_i32(t) {
            Some(n) => Some(n as i32),
            None => None,
        },
        None => None,
    }
}

/// `first`, or else `second`.
pub open spec fn either<T>(first: Option<T>, second: Option<T>) -> Option<T> {
    match first {
        Some(x) => Some(x),
        None => second,
    }
}

fn attr_u32(tag: &XmlTag, name: &str) -> (r: Option<u32>)
    ensures
        r == num_u32(spec_attr_val(*tag, name@)),
{
    match attr_val(tag, name) {
        Some(v) => parse_u32_str(v.as_str()),
        None => None,
    }
}

fn attr_i32(tag: &XmlTag, name: &str) -> (r: Option<i32>)
    ensures
        r == num_i32(spec_attr_val(*tag, name@)),
{
    match attr_val(tag, name) {
        Some(v) => parse_i32_str(v.as_str()),
        None => None,
    }
}

// ---------------------------------------------------------------------------
// The style sheet
// ---------------------------------------------------------------------------
/// A style definition by its values.
pub struct StyleView {
    pub style_id: Seq<char>,
    pub based_on: Option<Seq<char>>,
    pub jc: Option<Seq<char>>,
    pub first_line_chars: Option<i32>,
    pub first_line_twips: Option<i32>,
    pub sz_half_pt: Option<u32>,
}

pub open spec fn style_view(s: StyleDef) -> StyleView {
    StyleView {
        style_id: s.style_id@,
        based_on: opt_chars(s.based_on),
        jc: opt_chars(s.jc),
        first_line_chars: s.first_line_chars,
        first_line_twips: s.first_line_twips,
        sz_half_pt: s.sz_half_pt,
    }
}

pub open spec fn style_views(v: Seq<StyleDef>) -> Seq<StyleView> {
    v.map_values(|s: StyleDef| style_view(s))
}

/// Where the style-sheet reader stands: the styles read so far, the
/// default run size, the style being read and the elements it is inside.
pub struct SheetState {
    pub styles: Seq<StyleView>,
    pub defaults_sz: Option<u32>,
    pub cur: Option<StyleView>,
    pub in_style: bool,
    pub in_style_p_pr: bool,
    pub in_style_r_pr: bool,
    pub in_doc_defaults: bool,
    pub in_r_pr_default: bool,
    pub in_r_pr: bool,
}

pub open spec fn sheet_start() -> SheetState {
    SheetState {
        styles: Seq::empty(),
        defaults_sz: None,
        cur: None,
        in_style: false,
        in_style_p_pr: false,
        in_style_r_pr: false,
        in_doc_defaults: false,
        in_r_pr_default: false,
        in_r_pr: false,
    }
}

/// A start tag: `w:style` opens a style (its `styleId`, empty if missing);
/// `pPr`/`rPr` inside a style, `docDefaults`, `rPrDefault` inside it and
/// `rPr` inside that set the matching flags.
pub open spec fn sheet_on_start(st: SheetState, tag: XmlTag) -> SheetState {
    let n = spec_local_part(tag.name@);
    if n == "style"@ {
        SheetState {
            in_style: true,
            cur: Some(
                StyleView {
                    style_id: match spec_attr_val(tag, "styleId"@) {
                        Some(v) => v,
                        None => Seq::empty(),
                    },
                    based_on: None,
                    jc: None,
                    first_line_chars: None,
                    first_line_twips: None,
                    sz_half_pt: None,
                },
            ),
            ..st
        }
    } else if n == "pPr"@ && st.in_style {
        SheetState { in_style_p_pr: true, ..st }
    } else if n == "rPr"@ && st.in_style {
        SheetState { in_style_r_pr: true, ..st }
    } else if n == "docDefaults"@ {
        SheetState { in_doc_defaults: true, ..st }
    } else if n == "rPrDefault"@ && st.in_doc_defaults {
        SheetState { in_r_pr_default: true, ..st }
    } else if n == "rPr"@ && st.in_r_pr_default {
        SheetState { in_r_pr: true, ..st }
    } else {
        st
    }
}

/// An empty tag: `basedOn`, `jc`, `ind` and `sz` fill in the current style
/// (a size only once); `sz` under the document defaults sets the default
/// run size once.
pub open spec fn sheet_on_empty(st: SheetState, tag: XmlTag) -> SheetState {
    let n = spec_local_part(tag.name@);
    if n == "basedOn"@ && st.in_style {
        match st.cur {
            Some(c) => SheetState {
                cur: Some(StyleView { based_on: spec_attr_val(tag, "val"@), ..c }),
                ..st
            },
            None => st,
        }
    } else if n == "jc"@ && st.in_style_p_pr {
        match st.cur {
            Some(c) => SheetState { cur: Some(StyleView { jc: spec_attr_val(tag, "val"@), ..c }), ..st },
            None => st,
        }
    } else if n == "ind"@ && st.in_style_p_pr {
        match st.cur {
            Some(c) => SheetState {
                cur: Some(
                    StyleView {
                        first_line_chars: either(
                            num_i32(spec_attr_val(tag, "firstLineChars"@)),
                            c.first_line_chars,
                        ),
                        first_line_twips: either(
                            num_i32(spec_attr_val(tag, "firstLine"@)),
                            c.first_line_twips,
                        ),
                        ..c
                    },
                ),
                ..st
            },
            None => st,
        }
    } else if n == "sz"@ && (st.in_style_r_pr || st.in_r_pr) {
        let v = num_u32(spec_attr_val(tag, "val"@));
        if st.in_style_r_pr {
            match st.cur {
                Some(c) => SheetState {
                    cur: Some(StyleView { sz_half_pt: either(c.sz_half_pt, v), ..c }),
                    ..st
                },
                None => st,
            }
        } else {
            SheetState { defaults_sz: either(st.defaults_sz, v), ..st }
        }
    } else {
        st
    }
}

/// An end tag: `w:style` files the current style and leaves it; the others
/// clear their flags.
pub open spec fn sheet_on_end(st: SheetState, name: Seq<char>) -> SheetState {
    let n = spec_local_part(name);
    if n == "style"@ {
        SheetState {
            styles: match st.cur {
                Some(c) => st.styles.push(c),
                None => st.styles,
            },
            cur: None,
            in_style: false,
            in_style_p_pr: false,
            in_style_r_pr: false,
            ..st
        }
    } else if n == "pPr"@ {
        SheetState { in_style_p_pr: false, ..st }
    } else if n == "rPr"@ && st.in_style {
        SheetState { in_style_r_pr: false, ..st }
    } else if n == "docDefaults"@ {
        SheetState { in_doc_defaults: false, ..st }
    } else if n == "rPrDefault"@ {
        SheetState { in_r_pr_default: false, ..st }
    } else if n == "rPr"@ && st.in_r_pr {
        SheetState { in_r_pr: false, ..st }
    } else {
        st
    }
}

pub open spec fn sheet_step(st: SheetState, ev: XmlEvent) -> SheetState {
    match ev {
        XmlEvent::Start(t) => sheet_on_start(st, t),
        XmlEvent::Empty(t) => sheet_on_empty(st, t),
        XmlEvent::End(n) => sheet_on_end(st, n@),
        _ => st,
    }
}

/// The reader after the events, stopping at the end of the document or at
/// the first error.
pub open spec fn sheet_run(evs: Seq<XmlEvent>, st: SheetState) -> SheetState
    decreases evs.len(),
{
    if evs.len() == 0 {
        st
    } else {
        match evs[0] {
            XmlEvent::Eof => st,
            XmlEvent::Error(_) => st,
            _ => sheet_run(evs.skip(1), sheet_step(st, evs[0])),
        }
    }
}

struct SheetReader {
    styles: Vec<StyleDef>,
    defaults_sz: Option<u32>,
    cur: Option<StyleDef>,
    in_style: bool,
    in_style_p_pr: bool,
    in_style_r_pr: bool,
    in_doc_defaults: bool,
    in_r_pr_default: bool,
    in_r_pr: bool,
}

impl SheetReader {
    spec fn state(&self) -> SheetState {
        SheetState {
            styles: style_views(self.styles@),
            defaults_sz: self.defaults_sz,
            cur: match self.cur {
                Some(c) => Some(style_view(c)),
                None => None,
            },
            in_style: self.in_style,
            in_style_p_pr: self.in_style_p_pr,
            in_style_r_pr: self.in_style_r_pr,
            in_doc_defaults: self.in_doc_defaults,
            in_r_pr_default: self.in_r_pr_default,
            in_r_pr: self.in_r_pr,
        }
    }

    fn new() -> (r: SheetReader)
        ensures
            r.state() == sheet_start(),
    {
        let r = SheetReader {
            styles: Vec::new(),
            defaults_sz: None,
            cur: None,
            in_style: false,
            in_style_p_pr: false,
            in_style_r_pr: false,
            in_doc_defaults: false,
            in_r_pr_default: false,
            in_r_pr: false,
        };
        assert(style_views(r.styles@) =~= Seq::empty());
        r
    }

    fn on_start(&mut self, tag: &XmlTag)
        ensures
            final(self).state() == sheet_on_start(old(self).state(), *tag),
    {
        let n = local_part(tag.name.as_str());
        if is_named(n.as_slice(), "style") {
            self.in_style = true;
            let id = match attr_val(tag, "styleId") {
                Some(v) => v,
                None => String::new(),
            };
            self.cur = Some(
                StyleDef {
                    style_id: id,
                    based_on: None,
                    jc: None,
                    first_line_chars: None,
                    first_line_twips: None,
                    sz_half_pt: None,
                },
            );
        } else if is_named(n.as_slice(), "pPr") && self.in_style {
            self.in_style_p_pr = true;
        } else if is_named(n.as_slice(), "rPr") && self.in_style {
            self.in_style_r_pr = true;
        } else if is_named(n.as_slice(), "docDefaults") {
            self.in_doc_defaults = true;
        } else if is_named(n.as_slice(), "rPrDefault") && self.in_doc_defaults {
            self.in_r_pr_default = true;
        } else if is_named(n.as_slice(), "rPr") && self.in_r_pr_default {
            self.in_r_pr = true;
        }
    }

    fn on_empty(&mut self, tag: &XmlTag)
        ensures
            final(self).state() == sheet_on_empty(old(self).state(), *tag),
    {
        let n = local_part(tag.name.as_str());
        if is_named(n.as_slice(), "basedOn") && self.in_style {
            if let Some(mut c) = self.cur.take() {
                c.based_on = attr_val(tag, "val");
                self.cur = Some(c);
            }
        } else if is_named(n.as_slice(), "jc") && self.in_style_p_pr {
            if let Some(mut c) = self.cur.take() {
                c.jc = attr_val(tag, "val");
                self.cur = Some(c);
            }
        } else if is_named(n.as_slice(), "ind") && self.in_style_p_pr {
            if let Some(mut c) = self.cur.take() {
                if let Some(v) = attr_i32(tag, "firstLineChars") {
                    c.first_line_chars = Some(v);
                }
                if let Some(v) = attr_i32(tag, "firstLine") {
                    c.first_line_twips = Some(v);
                }
                self.cur = Some(c);
            }
        } else if is_named(n.as_slice(), "sz") && (self.in_style_r_pr || self.in_r_pr) {
            let v = attr_u32(tag, "val");
            if self.in_style_r_pr {
                if let Some(mut c) = self.cur.take() {
                    if c.sz_half_pt.is_none() {
                        c.sz_half_pt = v;
                    }
                    self.cur = Some(c);
                }
            } else if self.defaults_sz.is_none() {
                self.defaults_sz = v;
            }
        }
    }

    fn on_end(&mut self, name: &str)
        ensures
            final(self).state() == sheet_on_end(old(self).state(), name@),
    {
        let n = local_part(name);
        if is_named(n.as_slice(), "style") {
            if let Some(c) = self.cur.take() {
                let ghost before = self.styles@;
                self.styles.push(c);
                assert(style_views(self.styles@) =~= style_views(before).push(style_view(c)));
            }
            self.in_style = false;
            self.in_style_p_pr = false;
            self.in_style_r_pr = false;
        } else if is_named(n.as_slice(), "pPr") {
            self.in_style_p_pr = false;
        } else if is_named(n.as_slice(), "rPr") && self.in_style {
            self.in_style_r_pr = false;
        } else if is_named(n.as_slice(), "docDefaults") {
            self.in_doc_defaults = false;
        } else if is_named(n.as_slice(), "rPrDefault") {
            self.in_r_pr_default = false;
        } else if is_named(n.as_slice(), "rPr") && self.in_r_pr {
            self.in_r_pr = false;
        }
    }
}

/// Reads a style sheet from its events: the styles in document order and
/// the default run size of the document defaults.
pub fn parse_style_events(events: &[XmlEvent]) -> (r: (Vec<StyleDef>, Option<u32>))
    ensures
        style_views(r.0@) == sheet_run(events@, sheet_start()).styles,
        r.1 == sheet_run(events@, sheet_start()).defaults_sz,
{
    let mut rd = SheetReader::new();
    let mut k: usize = 0;
    assert(events@.skip(0) =~= events@);
    loop
        invariant_except_break
            k <= events.len(),
            sheet_run(events@, sheet_start()) == sheet_run(events@.skip(k as int), rd.state()),
        ensures
            sheet_run(events@, sheet_start()) == rd.state(),
        decreases events.len() - k,
    {
        if k == events.len() {
            assert(events@.skip(k as int).len() == 0);
            break;
        }
        let ghost rest = events@.skip(k as int);
        assert(rest[0] == events@[k as int]);
        assert(rest.skip(1) =~= events@.skip(k + 1));
        match &events[k] {
            XmlEvent::Eof => {
                break;
            },
            XmlEvent::Error(_) => {
                break;
            },
            XmlEvent::Start(t) => rd.on_start(t),
            XmlEvent::Empty(t) => rd.on_empty(t),
            XmlEvent::End(n) => rd.on_end(n.as_str()),
            _ => {},
        }
        k += 1;
    }
    (rd.styles, rd.defaults_sz)
}

/// The style sheet and default run size that `evs` give.
pub open spec fn sheet_of(evs: Seq<XmlEvent>, r: (Vec<StyleDef>, Option<u32>)) -> bool {
    &&& style_views(r.0@) == sheet_run(evs, sheet_start()).styles
    &&& r.1 == sheet_run(evs, sheet_start()).defaults_sz
}

/// Reads `word/styles.xml` (white space around text dropped): the styles and
/// the default run size; no style sheet gives neither.
pub fn parse_styles(xml: &Option<String>) -> (r: (Vec<StyleDef>, Option<u32>))
    ensures
        xml is None ==> r.0@.len() == 0 && r.1 is None,
        xml matches Some(x) ==> sheet_of(xml_events(x@, true), r),
{
    match xml {
        None => (Vec::new(), None),
        Some(x) => {
            let evs = read_xml_events(x.as_str(), true);
            let r = parse_style_events(evs.as_slice());
            assert(sheet_of(evs@, r));
            r
        },
    }
}

// ---------------------------------------------------------------------------
// The body
// ---------------------------------------------------------------------------
/// Run properties met so far in the run being read.
#[derive(Debug, Clone, Default)]
pub struct RawRunProps {
    /// Size in half points.
    pub sz_half_pt: Option<u32>,
    pub font_family: Option<String>,
    pub highlight: Option<String>,
    pub color: Option<String>,
}

/// A body paragraph as read: its runs and its direct formatting.
#[derive(Debug, Clone)]
pub struct ParsedParagraph {
    pub runs: Vec<TextRun>,
    pub fmt: ParaFmt,
}

/// A run style by its values.
pub struct StyleV {
    pub role_id: u32,
    pub highlight: Option<Seq<char>>,
    pub font_path: Option<Seq<char>>,
    pub fill: Option<[u8; 3]>,
    pub printed: bool,
    pub font_family: Option<Seq<char>>,
}

pub open spec fn style_v(s: TextRunStyle) -> StyleV {
    StyleV {
        role_id: s.role_id,
        highlight: opt_chars(s.highlight),
        font_path: opt_chars(s.font_path),
        fill: s.fill,
        printed: s.printed,
        font_family: opt_chars(s.font_family),
    }
}

/// Run properties by their values.
pub struct PropsV {
    pub sz_half_pt: Option<u32>,
    pub font_family: Option<Seq<char>>,
    pub highlight: Option<Seq<char>>,
    pub color: Option<Seq<char>>,
}

pub open spec fn props_v(p: RawRunProps) -> PropsV {
    PropsV {
        sz_half_pt: p.sz_half_pt,
        font_family: opt_chars(p.font_family),
        highlight: opt_chars(p.highlight),
        color: opt_chars(p.color),
    }
}

pub open spec fn no_props() -> PropsV {
    PropsV { sz_half_pt: None, font_family: None, highlight: None, color: None }
}

/// Paragraph formatting by its values.
pub struct FmtV {
    pub style_id: Option<Seq<char>>,
    pub jc: Option<Seq<char>>,
    pub first_line_chars: Option<i32>,
    pub first_line_twips: Option<i32>,
    pub run_sz_half_pt: Option<u32>,
    pub font_family: Option<Seq<char>>,
}

pub open spec fn fmt_v(f: ParaFmt) -> FmtV {
    FmtV {
        style_id: opt_chars(f.style_id),
        jc: opt_chars(f.jc),
        first_line_chars: f.first_line_chars,
        first_line_twips: f.first_line_twips,
        run_sz_half_pt: f.run_sz_half_pt,
        font_family: opt_chars(f.font_family),
    }
}

pub open spec fn no_fmt() -> FmtV {
    FmtV {
        style_id: None,
        jc: None,
        first_line_chars: None,
        first_line_twips: None,
        run_sz_half_pt: None,
        font_family: None,
    }
}

pub open spec fn runs_v(rs: Seq<TextRun>) -> Seq<(Seq<char>, StyleV)> {
    rs.map_values(|r: TextRun| (r.text@, style_v(r.style)))
}

pub open spec fn paras_v(ps: Seq<ParsedParagraph>) -> Seq<(Seq<(Seq<char>, StyleV)>, FmtV)> {
    ps.map_values(|p: ParsedParagraph| (runs_v(p.runs@), fmt_v(p.fmt)))
}

/// A value unless it is blank.
pub open spec fn nonblank(v: Option<Seq<char>>) -> Option<Seq<char>> {
    match v {
        Some(t) => if trim_seq(t).len() > 0 {
            Some(t)
        } else {
            None
        },
        None => None,
    }
}

/// The font of an `rFonts` tag of a run: East Asian, else ASCII, else
/// high-ANSI, the first that is not blank.
pub open spec fn run_font(tag: XmlTag) -> Option<Seq<char>> {
    either(
        nonblank(spec_attr_val(tag, "eastAsia"@)),
        either(nonblank(spec_attr_val(tag, "ascii"@)), nonblank(spec_attr_val(tag, "hAnsi"@))),
    )
}

/// The font of an `rFonts` tag of a paragraph: as for a run, then complex
/// script.
pub open spec fn para_font(tag: XmlTag) -> Option<Seq<char>> {
    either(run_font(tag), nonblank(spec_attr_val(tag, "cs"@)))
}

/// A paragraph-property tag (`pStyle`, `jc`, `ind`, `rFonts`) applied to the
/// paragraph formatting; other tags change nothing.
pub open spec fn p_pr_tag(f: FmtV, tag: XmlTag) -> FmtV {
    let n = spec_local_part(tag.name@);
    if n == "pStyle"@ {
        FmtV { style_id: either(spec_attr_val(tag, "val"@), f.style_id), ..f }
    } else if n == "jc"@ {
        FmtV { jc: either(spec_attr_val(tag, "val"@), f.jc), ..f }
    } else if n == "ind"@ {
        FmtV {
            first_line_chars: either(num_i32(spec_attr_val(tag, "firstLineChars"@)), f.first_line_chars),
            first_line_twips: either(num_i32(spec_attr_val(tag, "firstLine"@)), f.first_line_twips),
            ..f
        }
    } else if n == "rFonts"@ {
        FmtV { font_family: either(para_font(tag), f.font_family), ..f }
    } else {
        f
    }
}

/// A run-property tag (`sz`, `highlight`, `color`, `rFonts`) applied to the
/// run properties; a size is also the paragraph's first run size.
pub open spec fn r_pr_tag(p: PropsV, f: FmtV, tag: XmlTag) -> (PropsV, FmtV) {
    let n = spec_local_part(tag.name@);
    if n == "sz"@ {
        match num_u32(spec_attr_val(tag, "val"@)) {
            Some(v) => (
                PropsV { sz_half_pt: Some(v), ..p },
                FmtV { run_sz_half_pt: either(f.run_sz_half_pt, Some(v)), ..f },
            ),
            None => (p, f),
        }
    } else if n == "highlight"@ {
        (PropsV { highlight: either(spec_attr_val(tag, "val"@), p.highlight), ..p }, f)
    } else if n == "color"@ {
        (PropsV { color: either(spec_attr_val(tag, "val"@), p.color), ..p }, f)
    } else if n == "rFonts"@ {
        (PropsV { font_family: either(run_font(tag), p.font_family), ..p }, f)
    } else {
        (p, f)
    }
}

/// A highlight applied to a style (see `StyleRegistry::apply_highlight`).
pub open spec fn highlight_v(val: Seq<char>, s: StyleV, keys: Seq<Seq<char>>) -> (StyleV, Seq<Seq<char>>) {
    let t = trim_seq(val);
    let lower = spec_ascii_lower_seq(t);
    if lower == "none"@ || lower.len() == 0 {
        (s, keys)
    } else if spec_is_gray_highlight(lower) {
        (StyleV { highlight: Some(t), role_id: 1, printed: true, ..s }, keys)
    } else {
        let (k2, role) = register(keys, "highlight:"@ + lower);
        (StyleV { highlight: Some(t), role_id: role as u32, printed: false, ..s }, k2)
    }
}

/// A text colour applied to a style (see `StyleRegistry::apply_color`).
pub open spec fn color_v(val: Seq<char>, s: StyleV, keys: Seq<Seq<char>>) -> (StyleV, Seq<Seq<char>>) {
    match spec_parse_hex_color(trim_seq(val)) {
        None => (s, keys),
        Some(rgb) => if s.highlight is None && rgb != [0u8, 0u8, 0u8] {
            let (k2, role) = register(keys, color_key(rgb));
            (StyleV { fill: Some(rgb), role_id: role as u32, ..s }, k2)
        } else {
            (StyleV { fill: Some(rgb), ..s }, keys)
        },
    }
}

/// The style a run gets from its properties: its font, its colour, then its
/// highlight's role, or else its colour's role.
pub open spec fn run_style_v(p: PropsV, keys: Seq<Seq<char>>) -> (StyleV, Seq<Seq<char>>) {
    let s0 = StyleV { font_family: p.font_family, ..style_v(plain_style()) };
    let s1 = match p.color {
        Some(c) => match spec_parse_hex_color(c) {
            Some(rgb) => StyleV { fill: Some(rgb), ..s0 },
            None => s0,
        },
        None => s0,
    };
    match p.highlight {
        Some(h) => highlight_v(h, s1, keys),
        None => match p.color {
            Some(c) => color_v(c, s1, keys),
            None => (s1, keys),
        },
    }
}

/// The colour of a run can be read without cutting a character.
pub open spec fn props_readable(p: PropsV) -> bool {
    match p.color {
        Some(c) => hex_fields_cuttable(c) && (p.highlight is None ==> hex_fields_cuttable(
            trim_seq(c),
        )),
        None => true,
    }
}

/// Where the document reader stands.
pub struct DocState {
    /// Paragraphs read so far, each as its runs and formatting.
    pub paras: Seq<(Seq<(Seq<char>, StyleV)>, FmtV)>,
    pub in_body_para: bool,
    pub table_depth: nat,
    pub txbx_depth: nat,
    pub in_p_pr: bool,
    pub in_run: bool,
    pub in_r_pr: bool,
    pub in_t: bool,
    /// Runs of the paragraph being read.
    pub runs: Seq<(Seq<char>, StyleV)>,
    /// Text of the run being read.
    pub text: Seq<char>,
    pub props: PropsV,
    pub fmt: FmtV,
    /// The registry's keys.
    pub keys: Seq<Seq<char>>,
    /// The error the reader stopped at.
    pub error: Option<Seq<char>>,
}

pub open spec fn doc_start(keys: Seq<Seq<char>>) -> DocState {
    DocState {
        paras: Seq::empty(),
        in_body_para: false,
        table_depth: 0,
        txbx_depth: 0,
        in_p_pr: false,
        in_run: false,
        in_r_pr: false,
        in_t: false,
        runs: Seq::empty(),
        text: Seq::empty(),
        props: no_props(),
        fmt: no_fmt(),
        keys,
        error: None,
    }
}

/// The message for a run colour that cannot be read.
pub open spec fn bad_colour_message() -> Seq<char> {
    "unreadable run colour"@
}

/// Closes the run text read so far, if any, into a run: the run takes the
/// paragraph's font when it names none.
pub open spec fn flush_v(st: DocState) -> DocState {
    if st.text.len() == 0 {
        st
    } else {
        let p = if st.props.font_family is None && st.fmt.font_family is Some {
            PropsV { font_family: st.fmt.font_family, ..st.props }
        } else {
            st.props
        };
        if !props_readable(p) {
            DocState { props: p, error: Some(bad_colour_message()), ..st }
        } else {
            let (style, keys) = run_style_v(p, st.keys);
            DocState { runs: st.runs.push((st.text, style)), text: Seq::empty(), props: p, keys, ..st }
        }
    }
}

pub open spec fn doc_on_start(st: DocState, tag: XmlTag) -> DocState {
    let n = spec_local_part(tag.name@);
    if st.txbx_depth > 0 {
        if n == "txbxContent"@ {
            DocState { txbx_depth: st.txbx_depth + 1, ..st }
        } else {
            st
        }
    } else if n == "tbl"@ {
        DocState { table_depth: st.table_depth + 1, ..st }
    } else if n == "txbxContent"@ {
        DocState { txbx_depth: st.txbx_depth + 1, ..st }
    } else if n == "p"@ && st.table_depth == 0 {
        DocState {
            in_body_para: true,
            runs: Seq::empty(),
            text: Seq::empty(),
            props: no_props(),
            fmt: no_fmt(),
            ..st
        }
    } else if n == "pPr"@ && st.in_body_para {
        DocState { in_p_pr: true, fmt: p_pr_tag(st.fmt, tag), ..st }
    } else if n == "r"@ && st.in_body_para {
        let s1 = flush_v(st);
        if s1.error is Some {
            s1
        } else {
            DocState { in_run: true, text: Seq::empty(), props: no_props(), ..s1 }
        }
    } else if n == "rPr"@ && st.in_run {
        let (p, f) = r_pr_tag(st.props, st.fmt, tag);
        DocState { in_r_pr: true, props: p, fmt: f, ..st }
    } else if n == "t"@ && st.in_body_para {
        DocState { in_t: true, ..st }
    } else if st.in_p_pr {
        DocState { fmt: p_pr_tag(st.fmt, tag), ..st }
    } else if st.in_r_pr {
        let (p, f) = r_pr_tag(st.props, st.fmt, tag);
        DocState { props: p, fmt: f, ..st }
    } else {
        st
    }
}

pub open spec fn doc_on_empty(st: DocState, tag: XmlTag) -> DocState {
    let n = spec_local_part(tag.name@);
    if st.txbx_depth > 0 {
        st
    } else if n == "tab"@ && st.in_body_para {
        DocState { text: st.text.push('\t'), ..st }
    } else if (n == "br"@ || n == "cr"@) && st.in_body_para {
        DocState { text: st.text.push('\n'), ..st }
    } else if st.in_p_pr {
        DocState { fmt: p_pr_tag(st.fmt, tag), ..st }
    } else if st.in_r_pr {
        let (p, f) = r_pr_tag(st.props, st.fmt, tag);
        DocState { props: p, fmt: f, ..st }
    } else {
        st
    }
}

pub open spec fn doc_on_text(st: DocState, t: Seq<char>) -> DocState {
    if st.txbx_depth > 0 || !(st.in_body_para && st.in_t) {
        st
    } else {
        match xml_unescaped(t) {
            Some(v) => DocState { text: st.text + v, ..st },
            None => st,
        }
    }
}

pub open spec fn doc_on_end(st: DocState, name: Seq<char>) -> DocState {
    let n = spec_local_part(name);
    if st.txbx_depth > 0 {
        if n == "txbxContent"@ {
            DocState { txbx_depth: (st.txbx_depth - 1) as nat, ..st }
        } else {
            st
        }
    } else if n == "tbl"@ {
        DocState {
            table_depth: if st.table_depth > 0 {
                (st.table_depth - 1) as nat
            } else {
                0
            },
            ..st
        }
    } else if n == "t"@ {
        DocState { in_t: false, ..st }
    } else if n == "rPr"@ {
        DocState { in_r_pr: false, ..st }
    } else if n == "r"@ {
        let s1 = flush_v(st);
        if s1.error is Some {
            s1
        } else {
            DocState { in_run: false, in_r_pr: false, props: no_props(), ..s1 }
        }
    } else if n == "pPr"@ {
        DocState { in_p_pr: false, ..st }
    } else if n == "p"@ && st.in_body_para {
        let s1 = flush_v(st);
        if s1.error is Some {
            s1
        } else {
            DocState {
                paras: s1.paras.push((s1.runs, s1.fmt)),
                runs: Seq::empty(),
                fmt: no_fmt(),
                in_body_para: false,
                in_p_pr: false,
                in_run: false,
                in_r_pr: false,
                in_t: false,
                props: no_props(),
                ..s1
            }
        }
    } else {
        st
    }
}

pub open spec fn doc_step(st: DocState, ev: XmlEvent) -> DocState {
    match ev {
        XmlEvent::Start(t) => doc_on_start(st, t),
        XmlEvent::Empty(t) => doc_on_empty(st, t),
        XmlEvent::Text(t) => doc_on_text(st, t@),
        XmlEvent::End(n) => doc_on_end(st, n@),
        XmlEvent::Error(m) => DocState { error: Some(doc_error_prefix() + m@), ..st },
        _ => st,
    }
}

/// The prefix of the message for a document part that is not well formed.
pub open spec fn doc_error_prefix() -> Seq<char> {
    "解析 document.xml 失败："@
}

/// The reader after the events: it stops at the end of the document or at
/// the first error.
pub open spec fn doc_run(evs: Seq<XmlEvent>, st: DocState) -> DocState
    decreases evs.len(),
{
    if evs.len() == 0 || st.error is Some {
        st
    } else {
        match evs[0] {
            XmlEvent::Eof => st,
            _ => doc_run(evs.skip(1), doc_step(st, evs[0])),
        }
    }
}

// ---------------------------------------------------------------------------
// Reading the body
// ---------------------------------------------------------------------------
fn no_fmt_exec() -> (r: ParaFmt)
    ensures
        fmt_v(r) == no_fmt(),
{
    ParaFmt {
        style_id: None,
        jc: None,
        first_line_chars: None,
        first_line_twips: None,
        run_sz_half_pt: None,
        font_family: None,
    }
}

fn no_props_exec() -> (r: RawRunProps)
    ensures
        props_v(r) == no_props(),
{
    RawRunProps { sz_half_pt: None, font_family: None, highlight: None, color: None }
}

fn copy_opt(o: &Option<String>) -> (r: Option<String>)
    ensures
        opt_chars(r) == opt_chars(*o),
{
    match o {
        Some(v) => Some(v.clone()),
        None => None,
    }
}

/// An attribute value unless it is blank.
fn nonblank_attr(tag: &XmlTag, name: &str) -> (r: Option<String>)
    ensures
        opt_chars(r) == nonblank(spec_attr_val(*tag, name@)),
{
    match attr_val(tag, name) {
        Some(v) => {
            let t = trim_str(v.as_str());
            if t.len() > 0 {
                Some(v)
            } else {
                None
            }
        },
        None => None,
    }
}

fn run_font_exec(tag: &XmlTag) -> (r: Option<String>)
    ensures
        opt_chars(r) == run_font(*tag),
{
    match nonblank_attr(tag, "eastAsia") {
        Some(v) => Some(v),
        None => match nonblank_attr(tag, "ascii") {
            Some(v) => Some(v),
            None => nonblank_attr(tag, "hAnsi"),
        },
    }
}

fn para_font_exec(tag: &XmlTag) -> (r: Option<String>)
    ensures
        opt_chars(r) == para_font(*tag),
{
    match run_font_exec(tag) {
        Some(v) => Some(v),
        None => nonblank_attr(tag, "cs"),
    }
}

/// Applies a paragraph-property tag to the paragraph formatting.
fn apply_p_pr(fmt: &mut ParaFmt, tag: &XmlTag)
    ensures
        fmt_v(*final(fmt)) == p_pr_tag(fmt_v(*old(fmt)), *tag),
{
    let n = local_part(tag.name.as_str());
    if is_named(n.as_slice(), "pStyle") {
        if let Some(v) = attr_val(tag, "val") {
            fmt.style_id = Some(v);
        }
    } else if is_named(n.as_slice(), "jc") {
        if let Some(v) = attr_val(tag, "val") {
            fmt.jc = Some(v);
        }
    } else if is_named(n.as_slice(), "ind") {
        if let Some(v) = attr_i32(tag, "firstLineChars") {
            fmt.first_line_chars = Some(v);
        }
        if let Some(v) = attr_i32(tag, "firstLine") {
            fmt.first_line_twips = Some(v);
        }
    } else if is_named(n.as_slice(), "rFonts") {
        if let Some(v) = para_font_exec(tag) {
            fmt.font_family = Some(v);
        }
    }
}

/// Applies a run-property tag to the run properties (and a size to the
/// paragraph's first run size).
fn apply_r_pr(props: &mut RawRunProps, fmt: &mut ParaFmt, tag: &XmlTag)
    ensures
        (props_v(*final(props)), fmt_v(*final(fmt))) == r_pr_tag(
            props_v(*old(props)),
            fmt_v(*old(fmt)),
            *tag,
        ),
{
    let n = local_part(tag.name.as_str());
    if is_named(n.as_slice(), "sz") {
        if let Some(v) = attr_u32(tag, "val") {
            if fmt.run_sz_half_pt.is_none() {
                fmt.run_sz_half_pt = Some(v);
            }
            props.sz_half_pt = Some(v);
        }
    } else if is_named(n.as_slice(), "highlight") {
        if let Some(v) = attr_val(tag, "val") {
            props.highlight = Some(v);
        }
    } else if is_named(n.as_slice(), "color") {
        if let Some(v) = attr_val(tag, "val") {
            props.color = Some(v);
        }
    } else if is_named(n.as_slice(), "rFonts") {
        if let Some(v) = run_font_exec(tag) {
            props.font_family = Some(v);
        }
    }
}

/// The style of a run with these properties, registering its role.
fn apply_props(props: &RawRunProps, reg: &mut StyleRegistry) -> (r: TextRunStyle)
    requires
        old(reg).wf(),
        old(reg).keys().len() + 3 <= u32::MAX,
        props_readable(props_v(*props)),
    ensures
        final(reg).wf(),
        (style_v(r), final(reg).keys()) == run_style_v(props_v(*props), old(reg).keys()),
{
    let mut style = TextRunStyle::plain();
    if let Some(f) = &props.font_family {
        style.font_family = Some(f.clone());
    }
    if let Some(c) = &props.color {
        if let Some(rgb) = parse_hex_color(c.as_str()) {
            style.fill = Some(rgb);
        }
    }
    let ghost s1 = style_v(style);
    if let Some(h) = &props.highlight {
        reg.apply_highlight(h.as_str(), &mut style);
    } else if let Some(c) = &props.color {
        reg.apply_color(c.as_str(), &mut style);
    }
    style
}

/// Whether a run's colour can be read.
fn props_readable_exec(props: &RawRunProps) -> (r: bool)
    ensures
        r == props_readable(props_v(*props)),
{
    match &props.color {
        Some(c) => {
            if !hex_cuttable(c.as_str()) {
                false
            } else if props.highlight.is_none() {
                let t = trim_str(c.as_str());
                let ts = crate::text::string_of(t.as_slice());
                hex_cuttable(ts.as_str())
            } else {
                true
            }
        },
        None => true,
    }
}

struct DocReader {
    paras: Vec<ParsedParagraph>,
    in_body_para: bool,
    table_depth: usize,
    txbx_depth: usize,
    in_p_pr: bool,
    in_run: bool,
    in_r_pr: bool,
    in_t: bool,
    runs: Vec<TextRun>,
    text: String,
    props: RawRunProps,
    fmt: ParaFmt,
}

impl DocReader {
    spec fn state(&self, keys: Seq<Seq<char>>) -> DocState {
        DocState {
            paras: paras_v(self.paras@),
            in_body_para: self.in_body_para,
            table_depth: self.table_depth as nat,
            txbx_depth: self.txbx_depth as nat,
            in_p_pr: self.in_p_pr,
            in_run: self.in_run,
            in_r_pr: self.in_r_pr,
            in_t: self.in_t,
            runs: runs_v(self.runs@),
            text: self.text@,
            props: props_v(self.props),
            fmt: fmt_v(self.fmt),
            keys,
            error: None,
        }
    }

    fn new() -> (r: DocReader)
        ensures
            forall|keys: Seq<Seq<char>>| #[trigger] r.state(keys) == doc_start(keys),
            r.table_depth == 0 && r.txbx_depth == 0,
    {
        let r = DocReader {
            paras: Vec::new(),
            in_body_para: false,
            table_depth: 0,
            txbx_depth: 0,
            in_p_pr: false,
            in_run: false,
            in_r_pr: false,
            in_t: false,
            runs: Vec::new(),
            text: String::new(),
            props: no_props_exec(),
            fmt: no_fmt_exec(),
        };
        assert(paras_v(r.paras@) =~= Seq::empty());
        assert(runs_v(r.runs@) =~= Seq::empty());
        r
    }

    /// Closes the pending run text into a run; `false` if its colour cannot
    /// be read.
    fn flush(&mut self, reg: &mut StyleRegistry) -> (ok: bool)
        requires
            old(reg).wf(),
            old(reg).keys().len() + 3 <= u32::MAX,
        ensures
            final(reg).wf(),
            final(reg).keys().len() <= old(reg).keys().len() + 1,
            ok == (flush_v(old(self).state(old(reg).keys())).error is None),
            final(reg).keys() == flush_v(old(self).state(old(reg).keys())).keys,
            ok ==> final(self).state(final(reg).keys()) == flush_v(old(self).state(old(reg).keys())),
            final(self).table_depth == old(self).table_depth,
            final(self).txbx_depth == old(self).txbx_depth,
    {
        if self.text.as_str().unicode_len() == 0 {
            proof {
                assert(self.text@.len() == 0);
            }
            return true;
        }
        if self.props.font_family.is_none() && self.fmt.font_family.is_some() {
            self.props.font_family = copy_opt(&self.fmt.font_family);
        }
        if !props_readable_exec(&self.props) {
            return false;
        }
        let style = apply_props(&self.props, reg);
        let ghost before = self.runs@;
        self.runs.push(TextRun { text: self.text.clone(), style });
        self.text = String::new();
        proof {
            assert(runs_v(self.runs@) =~= runs_v(before).push(
                (old(self).text@, style_v(style)),
            ));
            let (sv, k) = run_style_v(props_v(self.props), old(reg).keys());
            lemma_register_len(old(reg).keys(), props_v(self.props));
        }
        true
    }
}

impl DocReader {
    fn on_start(&mut self, tag: &XmlTag, reg: &mut StyleRegistry) -> (ok: bool)
        requires
            old(reg).wf(),
            old(reg).keys().len() + 3 <= u32::MAX,
            old(self).table_depth < usize::MAX,
            old(self).txbx_depth < usize::MAX,
        ensures
            final(reg).wf(),
            final(reg).keys().len() <= old(reg).keys().len() + 1,
            ok == (doc_on_start(old(self).state(old(reg).keys()), *tag).error is None),
            final(reg).keys() == doc_on_start(old(self).state(old(reg).keys()), *tag).keys,
            ok ==> final(self).state(final(reg).keys()) == doc_on_start(
                old(self).state(old(reg).keys()),
                *tag,
            ),
            final(self).table_depth <= old(self).table_depth + 1,
            final(self).txbx_depth <= old(self).txbx_depth + 1,
    {
        let n = local_part(tag.name.as_str());
        if self.txbx_depth > 0 {
            if is_named(n.as_slice(), "txbxContent") {
                self.txbx_depth += 1;
            }
            return true;
        }
        if is_named(n.as_slice(), "tbl") {
            self.table_depth += 1;
        } else if is_named(n.as_slice(), "txbxContent") {
            self.txbx_depth += 1;
        } else if is_named(n.as_slice(), "p") && self.table_depth == 0 {
            self.in_body_para = true;
            self.runs = Vec::new();
            self.text = String::new();
            self.props = no_props_exec();
            self.fmt = no_fmt_exec();
            assert(runs_v(self.runs@) =~= Seq::empty());
        } else if is_named(n.as_slice(), "pPr") && self.in_body_para {
            self.in_p_pr = true;
            apply_p_pr(&mut self.fmt, tag);
        } else if is_named(n.as_slice(), "r") && self.in_body_para {
            if !self.flush(reg) {
                return false;
            }
            self.in_run = true;
            self.text = String::new();
            self.props = no_props_exec();
        } else if is_named(n.as_slice(), "rPr") && self.in_run {
            self.in_r_pr = true;
            apply_r_pr(&mut self.props, &mut self.fmt, tag);
        } else if is_named(n.as_slice(), "t") && self.in_body_para {
            self.in_t = true;
        } else if self.in_p_pr {
            apply_p_pr(&mut self.fmt, tag);
        } else if self.in_r_pr {
            apply_r_pr(&mut self.props, &mut self.fmt, tag);
        }
        true
    }

    fn on_empty(&mut self, tag: &XmlTag)
        ensures
            forall|keys: Seq<Seq<char>>| #[trigger] final(self).state(keys) == doc_on_empty(
                old(self).state(keys),
                *tag,
            ),
            final(self).table_depth == old(self).table_depth,
            final(self).txbx_depth == old(self).txbx_depth,
    {
        let n = local_part(tag.name.as_str());
        if self.txbx_depth > 0 {
            return;
        }
        if is_named(n.as_slice(), "tab") && self.in_body_para {
            self.text.push('\t');
        } else if (is_named(n.as_slice(), "br") || is_named(n.as_slice(), "cr")) && self.in_body_para {
            self.text.push('\n');
        } else if self.in_p_pr {
            apply_p_pr(&mut self.fmt, tag);
        } else if self.in_r_pr {
            apply_r_pr(&mut self.props, &mut self.fmt, tag);
        }
    }

    fn on_text(&mut self, t: &str)
        ensures
            forall|keys: Seq<Seq<char>>| #[trigger] final(self).state(keys) == doc_on_text(
                old(self).state(keys),
                t@,
            ),
            final(self).table_depth == old(self).table_depth,
            final(self).txbx_depth == old(self).txbx_depth,
    {
        if self.txbx_depth > 0 || !(self.in_body_para && self.in_t) {
            return;
        }
        if let Some(v) = unescape_text(t) {
            push_str(&mut self.text, v.as_str());
        }
    }

    fn on_end(&mut self, name: &str, reg: &mut StyleRegistry) -> (ok: bool)
        requires
            old(reg).wf(),
            old(reg).keys().len() + 3 <= u32::MAX,
        ensures
            final(reg).wf(),
            final(reg).keys().len() <= old(reg).keys().len() + 1,
            ok == (doc_on_end(old(self).state(old(reg).keys()), name@).error is None),
            final(reg).keys() == doc_on_end(old(self).state(old(reg).keys()), name@).keys,
            ok ==> final(self).state(final(reg).keys()) == doc_on_end(
                old(self).state(old(reg).keys()),
                name@,
            ),
            final(self).table_depth <= old(self).table_depth,
            final(self).txbx_depth <= old(self).txbx_depth,
    {
        let n = local_part(name);
        if self.txbx_depth > 0 {
            if is_named(n.as_slice(), "txbxContent") {
                self.txbx_depth -= 1;
            }
            return true;
        }
        if is_named(n.as_slice(), "tbl") {
            self.table_depth = if self.table_depth > 0 {
                self.table_depth - 1
            } else {
                0
            };
        } else if is_named(n.as_slice(), "t") {
            self.in_t = false;
        } else if is_named(n.as_slice(), "rPr") {
            self.in_r_pr = false;
        } else if is_named(n.as_slice(), "r") {
            if !self.flush(reg) {
                return false;
            }
            self.in_run = false;
            self.in_r_pr = false;
            self.props = no_props_exec();
        } else if is_named(n.as_slice(), "pPr") {
            self.in_p_pr = false;
        } else if is_named(n.as_slice(), "p") && self.in_body_para {
            if !self.flush(reg) {
                return false;
            }
            let mut runs: Vec<TextRun> = Vec::new();
            std::mem::swap(&mut runs, &mut self.runs);
            let mut fmt = no_fmt_exec();
            std::mem::swap(&mut fmt, &mut self.fmt);
            let ghost before = self.paras@;
            self.paras.push(ParsedParagraph { runs, fmt });
            assert(paras_v(self.paras@) =~= paras_v(before).push((runs_v(runs@), fmt_v(fmt))));
            assert(runs_v(self.runs@) =~= Seq::empty());
            self.in_body_para = false;
            self.in_p_pr = false;
            self.in_run = false;
            self.in_r_pr = false;
            self.in_t = false;
            self.props = no_props_exec();
        }
        true
    }
}

/// Reads the body paragraphs of a document part from its events: paragraphs
/// directly in the body (not in tables, text boxes skipped), each with its
/// runs (text, colour and highlight roles registered in `registry`) and its
/// direct formatting. Fails at a syntax error, with its message.
pub fn parse_document_events(events: &[XmlEvent], registry: &mut StyleRegistry) -> (r: Result<
    Vec<ParsedParagraph>,
    String,
>)
    requires
        old(registry).wf(),
        old(registry).keys().len() + events@.len() + 3 <= u32::MAX,
    ensures
        final(registry).wf(),
        final(registry).keys() == doc_run(events@, doc_start(old(registry).keys())).keys,
        match r {
            Ok(ps) => doc_run(events@, doc_start(old(registry).keys())).error is None
                && paras_v(ps@) == doc_run(events@, doc_start(old(registry).keys())).paras,
            Err(m) => doc_run(events@, doc_start(old(registry).keys())).error == Some(m@),
        },
{
    let ghost keys0 = registry.keys();
    let mut rd = DocReader::new();
    let mut k: usize = 0;
    assert(events@.skip(0) =~= events@);
    assert(rd.state(keys0) == doc_start(keys0));
    while k < events.len()
        invariant
            k <= events.len(),
            keys0 == old(registry).keys(),
            registry.wf(),
            registry.keys().len() <= keys0.len() + k,
            keys0.len() + events@.len() + 3 <= u32::MAX,
            rd.table_depth <= k,
            rd.txbx_depth <= k,
            doc_run(events@, doc_start(keys0)) == doc_run(
                events@.skip(k as int),
                rd.state(registry.keys()),
            ),
        decreases events.len() - k,
    {
        let ghost rest = events@.skip(k as int);
        let ghost st = rd.state(registry.keys());
        assert(rest[0] == events@[k as int]);
        assert(rest.skip(1) =~= events@.skip(k + 1));
        match &events[k] {
            XmlEvent::Eof => {
                assert(doc_run(rest, st) == st);
                return Ok(rd.paras);
            },
            XmlEvent::Error(m) => {
                let mut msg = String::new();
                push_str(&mut msg, "解析 document.xml 失败：");
                push_str(&mut msg, m.as_str());
                let ghost s1 = doc_step(st, events@[k as int]);
                assert(s1.error == Some(doc_error_prefix() + m@));
                assert(doc_run(rest.skip(1), s1) == s1);
                return Err(msg);
            },
            XmlEvent::Start(t) => {
                if !rd.on_start(t, registry) {
                    let ghost s1 = doc_step(st, events@[k as int]);
                    assert(s1.error == Some(bad_colour_message()));
                    assert(doc_run(rest.skip(1), s1) == s1);
                    return Err(bad_colour());
                }
            },
            XmlEvent::Empty(t) => rd.on_empty(t),
            XmlEvent::Text(t) => rd.on_text(t.as_str()),
            XmlEvent::End(n) => {
                if !rd.on_end(n.as_str(), registry) {
                    let ghost s1 = doc_step(st, events@[k as int]);
                    assert(s1.error == Some(bad_colour_message()));
                    assert(doc_run(rest.skip(1), s1) == s1);
                    return Err(bad_colour());
                }
            },
            XmlEvent::Other => {},
        }
        k += 1;
    }
    assert(events@.skip(k as int).len() == 0);
    Ok(rd.paras)
}

/// What reading a document part whose events are `evs` gives: the result
/// and the registry's keys afterwards.
pub open spec fn document_of(
    evs: Seq<XmlEvent>,
    keys: Seq<Seq<char>>,
    r: Result<Vec<ParsedParagraph>, String>,
    keys_after: Seq<Seq<char>>,
) -> bool {
    let fin = doc_run(evs, doc_start(keys));
    &&& keys_after == fin.keys
    &&& match r {
        Ok(ps) => fin.error is None && paras_v(ps@) == fin.paras,
        Err(m) => fin.error == Some(m@),
    }
}

/// Reads `word/document.xml` (text kept as it is): its body paragraphs, as
/// `parse_document_events` reads them from the document's events.
pub fn parse_document(xml: &str, registry: &mut StyleRegistry) -> (r: Result<
    Vec<ParsedParagraph>,
    String,
>)
    requires
        old(registry).wf(),
        old(registry).keys().len() + xml@.len() + 4 <= u32::MAX,
    ensures
        final(registry).wf(),
        document_of(xml_events(xml@, false), old(registry).keys(), r, final(registry).keys()),
{
    let evs = read_xml_events(xml, false);
    let ghost keys0 = registry.keys();
    let r = parse_document_events(evs.as_slice(), registry);
    assert(document_of(evs@, keys0, r, registry.keys()));
    r
}

fn role_overflow() -> (r: String)
    ensures
        r@ == role_overflow_message(),
{
    let mut m = String::new();
    push_str(&mut m, "role number out of range");
    assert(m@ =~= role_overflow_message());
    m
}

fn bad_colour() -> (r: String)
    ensures
        r@ == bad_colour_message(),
{
    let mut m = String::new();
    push_str(&mut m, "unreadable run colour");
    m
}

// ---------------------------------------------------------------------------
// Paragraphs of an imported document
// ---------------------------------------------------------------------------
/// A paragraph of an imported document: its trimmed text, alignment, font
/// family and runs, and the direct formatting its first-line indent is
/// worked out from.
#[derive(Debug, Clone)]
pub struct DocParagraph {
    pub text: String,
    pub align: Align,
    pub font_family: Option<String>,
    pub runs: Vec<TextRun>,
    pub fmt: ParaFmt,
}

/// A paragraph by its values.
pub struct ParaOut {
    pub text: Seq<char>,
    pub align: Align,
    pub font_family: Option<Seq<char>>,
    pub runs: Seq<(Seq<char>, TextRunStyle)>,
    pub fmt: FmtV,
}

pub open spec fn para_out(d: DocParagraph) -> ParaOut {
    ParaOut {
        text: d.text@,
        align: d.align,
        font_family: opt_chars(d.font_family),
        runs: runs_view(d.runs@),
        fmt: fmt_v(d.fmt),
    }
}

/// A paragraph's runs with their `{{...}}` tags expanded, run after run, and
/// the registry keys afterwards.
pub open spec fn split_runs(rs: Seq<TextRun>, keys: Seq<Seq<char>>) -> (
    Seq<(Seq<char>, TextRunStyle)>,
    Seq<Seq<char>>,
)
    decreases rs.len(),
{
    if rs.len() == 0 {
        (Seq::empty(), keys)
    } else {
        let (a, k1) = split_runs(rs.drop_last(), keys);
        let (b, k2) = split_from(rs.last().text@, 0, rs.last().style, k1);
        (a + b, k2)
    }
}

/// The font of a paragraph: that of its first run naming one, else the
/// paragraph's own.
pub open spec fn first_font(rs: Seq<(Seq<char>, TextRunStyle)>, own: Option<Seq<char>>) -> Option<
    Seq<char>,
>
    decreases rs.len(),
{
    if rs.len() == 0 {
        own
    } else if rs[0].1.font_family is Some {
        opt_chars(rs[0].1.font_family)
    } else {
        first_font(rs.skip(1), own)
    }
}

/// The paragraphs kept from the parsed ones: tags expanded, runs trimmed,
/// empty paragraphs dropped; and the registry keys afterwards.
pub open spec fn assemble(ps: Seq<ParsedParagraph>, keys: Seq<Seq<char>>) -> (
    Seq<ParaOut>,
    Seq<Seq<char>>,
)
    decreases ps.len(),
{
    if ps.len() == 0 {
        (Seq::empty(), keys)
    } else {
        let (done, k1) = assemble(ps.drop_last(), keys);
        let p = ps.last();
        let (runs, k2) = split_runs(p.runs@, k1);
        let (text, trimmed) = spec_trim_paragraph_runs(runs);
        if text.len() == 0 {
            (done, k2)
        } else {
            (
                done.push(
                    ParaOut {
                        text,
                        align: spec_resolve_align(p.fmt.jc),
                        font_family: first_font(trimmed, opt_chars(p.fmt.font_family)),
                        runs: trimmed,
                        fmt: fmt_v(p.fmt),
                    },
                ),
                k2,
            )
        }
    }
}

/// A style that marks handwriting: a highlight, or a handwriting role.
pub open spec fn marks_handwriting(s: TextRunStyle) -> bool {
    s.highlight is Some || (s.role_id >= 2 && !s.printed)
}

/// Some run of some paragraph marks handwriting.
pub open spec fn doc_marked(ps: Seq<ParaOut>) -> bool {
    exists|i: int, k: int|
        0 <= i < ps.len() && 0 <= k < ps[i].runs.len() && marks_handwriting(
            #[trigger] ps[i].runs[k].1,
        )
}

/// A run's style once the document is classified: where handwriting is
/// marked anywhere, unmarked default-role text is printed (role 1).
pub open spec fn template_style(s: TextRunStyle, marked: bool) -> TextRunStyle {
    if marked && s.role_id == 0 {
        TextRunStyle { role_id: 1, printed: true, ..s }
    } else {
        s
    }
}

pub open spec fn templated(p: ParaOut, marked: bool) -> ParaOut {
    ParaOut {
        runs: p.runs.map_values(
            |r: (Seq<char>, TextRunStyle)| (r.0, template_style(r.1, marked)),
        ),
        ..p
    }
}

/// Total length of the runs' text.
pub open spec fn runs_text_len(rs: Seq<TextRun>) -> int
    decreases rs.len(),
{
    if rs.len() == 0 {
        0
    } else {
        runs_text_len(rs.drop_last()) + rs.last().text@.len()
    }
}

pub open spec fn paras_text_len(ps: Seq<ParsedParagraph>) -> int
    decreases ps.len(),
{
    if ps.len() == 0 {
        0
    } else {
        paras_text_len(ps.drop_last()) + runs_text_len(ps.last().runs@)
    }
}

/// Every tag of every run asks for a role in range.
pub open spec fn roles_in_range(ps: Seq<ParsedParagraph>) -> bool {
    forall|i: int, k: int|
        0 <= i < ps.len() && 0 <= k < ps[i].runs@.len() ==> split_roles_in_range(
            #[trigger] ps[i].runs@[k].text@,
            0,
        )
}

proof fn lemma_runs_text_len_nonneg(rs: Seq<TextRun>)
    ensures
        runs_text_len(rs) >= 0,
    decreases rs.len(),
{
    if rs.len() > 0 {
        lemma_runs_text_len_nonneg(rs.drop_last());
    }
}

proof fn lemma_paras_text_len_nonneg(ps: Seq<ParsedParagraph>)
    ensures
        paras_text_len(ps) >= 0,
    decreases ps.len(),
{
    if ps.len() > 0 {
        lemma_paras_text_len_nonneg(ps.drop_last());
        lemma_runs_text_len_nonneg(ps.last().runs@);
    }
}

proof fn lemma_split_runs_growth(rs: Seq<TextRun>, keys: Seq<Seq<char>>)
    ensures
        split_runs(rs, keys).1.len() <= keys.len() + runs_text_len(rs),
    decreases rs.len(),
{
    if rs.len() > 0 {
        lemma_split_runs_growth(rs.drop_last(), keys);
        let k1 = split_runs(rs.drop_last(), keys).1;
        lemma_split_keys_growth(rs.last().text@, 0, rs.last().style, k1);
    }
}

proof fn lemma_runs_prefix_len(rs: Seq<TextRun>, k: int)
    requires
        0 <= k < rs.len(),
    ensures
        runs_text_len(rs.take(k)) + rs[k].text@.len() <= runs_text_len(rs),
        runs_text_len(rs.take(k + 1)) == runs_text_len(rs.take(k)) + rs[k].text@.len(),
    decreases rs.len(),
{
    let next = rs.take(k + 1);
    assert(next.drop_last() =~= rs.take(k));
    if k == rs.len() - 1 {
        assert(rs.drop_last() =~= rs.take(k));
        assert(next =~= rs);
    } else {
        lemma_runs_prefix_len(rs.drop_last(), k);
        assert(rs.drop_last().take(k) =~= rs.take(k));
        assert(rs.drop_last().take(k + 1) =~= rs.take(k + 1));
    }
}

fn copy_fmt(f: &ParaFmt) -> (r: ParaFmt)
    ensures
        fmt_v(r) == fmt_v(*f),
{
    ParaFmt {
        style_id: copy_opt(&f.style_id),
        jc: copy_opt(&f.jc),
        first_line_chars: f.first_line_chars,
        first_line_twips: f.first_line_twips,
        run_sz_half_pt: f.run_sz_half_pt,
        font_family: copy_opt(&f.font_family),
    }
}

/// The runs of one parsed paragraph with their tags expanded.
fn split_paragraph_runs(p: &ParsedParagraph, registry: &mut StyleRegistry) -> (r: Vec<TextRun>)
    requires
        old(registry).wf(),
        old(registry).keys().len() + runs_text_len(p.runs@) + 3 <= u32::MAX,
        forall|k: int| 0 <= k < p.runs@.len() ==> split_roles_in_range(#[trigger] p.runs@[k].text@, 0),
    ensures
        final(registry).wf(),
        (runs_view(r@), final(registry).keys()) == split_runs(p.runs@, old(registry).keys()),
{
    let ghost keys0 = registry.keys();
    let mut out: Vec<TextRun> = Vec::new();
    let mut k: usize = 0;
    assert(p.runs@.take(0) =~= Seq::<TextRun>::empty());
    while k < p.runs.len()
        invariant
            k <= p.runs@.len(),
            keys0 == old(registry).keys(),
            registry.wf(),
            keys0.len() + runs_text_len(p.runs@) + 3 <= u32::MAX,
            forall|j: int| 0 <= j < p.runs@.len() ==> split_roles_in_range(#[trigger] p.runs@[j].text@, 0),
            (runs_view(out@), registry.keys()) == split_runs(p.runs@.take(k as int), keys0),
        decreases p.runs@.len() - k,
    {
        let ghost pre = p.runs@.take(k as int);
        let ghost next = p.runs@.take(k + 1);
        assert(next.drop_last() =~= pre);
        proof {
            lemma_split_runs_growth(pre, keys0);
            lemma_runs_prefix_len(p.runs@, k as int);
        }
        let mut piece = split_syntax_tags(&p.runs[k], registry);
        let ghost before = out@;
        let ghost piece_view = piece@;
        out.append(&mut piece);
        assert(runs_view(out@) =~= runs_view(before) + runs_view(piece_view));
        k += 1;
    }
    assert(p.runs@.take(k as int) =~= p.runs@);
    out
}

/// The font of the first run naming one, else the paragraph's own.
fn first_font_exec(runs: &Vec<TextRun>, own: &Option<String>) -> (r: Option<String>)
    ensures
        opt_chars(r) == first_font(runs_view(runs@), opt_chars(*own)),
{
    let ghost rv = runs_view(runs@);
    let mut k: usize = 0;
    assert(rv.skip(0) =~= rv);
    while k < runs.len()
        invariant
            k <= runs@.len(),
            rv == runs_view(runs@),
            first_font(rv, opt_chars(*own)) == first_font(rv.skip(k as int), opt_chars(*own)),
        decreases runs@.len() - k,
    {
        assert(rv.skip(k as int)[0] == rv[k as int]);
        assert(rv.skip(k as int).skip(1) =~= rv.skip(k + 1));
        if runs[k].style.font_family.is_some() {
            return copy_opt(&runs[k].style.font_family);
        }
        k += 1;
    }
    copy_opt(own)
}

pub open spec fn outs_view(v: Seq<DocParagraph>) -> Seq<ParaOut> {
    v.map_values(|d: DocParagraph| para_out(d))
}

/// Expands tags, trims and keeps the non-empty paragraphs.
fn collect_paragraphs(parsed: &Vec<ParsedParagraph>, registry: &mut StyleRegistry) -> (r: Vec<
    DocParagraph,
>)
    requires
        old(registry).wf(),
        old(registry).keys().len() + paras_text_len(parsed@) + 3 <= u32::MAX,
        roles_in_range(parsed@),
    ensures
        final(registry).wf(),
        (outs_view(r@), final(registry).keys()) == assemble(parsed@, old(registry).keys()),
{
    let ghost keys0 = registry.keys();
    let mut outs: Vec<DocParagraph> = Vec::new();
    let mut i: usize = 0;
    assert(parsed@.take(0) =~= Seq::<ParsedParagraph>::empty());
    assert(outs_view(outs@) =~= Seq::empty());
    while i < parsed.len()
        invariant
            i <= parsed@.len(),
            keys0 == old(registry).keys(),
            registry.wf(),
            keys0.len() + paras_text_len(parsed@) + 3 <= u32::MAX,
            roles_in_range(parsed@),
            (outs_view(outs@), registry.keys()) == assemble(parsed@.take(i as int), keys0),
        decreases parsed@.len() - i,
    {
        let ghost pre = parsed@.take(i as int);
        let ghost next = parsed@.take(i + 1);
        assert(next.drop_last() =~= pre);
        assert(next.last() == parsed@[i as int]);
        proof {
            lemma_assemble_growth(pre, keys0);
            lemma_paras_prefix_len(parsed@, i as int);
        }
        let p = &parsed[i];
        assert forall|k: int| 0 <= k < p.runs@.len() implies split_roles_in_range(
            #[trigger] p.runs@[k].text@,
            0,
        ) by {
            assert(split_roles_in_range(parsed@[i as int].runs@[k].text@, 0));
        }
        let runs = split_paragraph_runs(p, registry);
        let (text, trimmed) = trim_paragraph_runs(runs);
        if text.as_str().unicode_len() > 0 {
            let align = resolve_align(&p.fmt);
            let font = first_font_exec(&trimmed, &p.fmt.font_family);
            let fmt = copy_fmt(&p.fmt);
            let ghost before = outs@;
            outs.push(DocParagraph { text, align, font_family: font, runs: trimmed, fmt });
            assert(outs_view(outs@) =~= outs_view(before).push(para_out(outs@.last())));
        }
        i += 1;
    }
    assert(parsed@.take(i as int) =~= parsed@);
    outs
}

fn any_marked_run(outs: &Vec<DocParagraph>) -> (r: bool)
    ensures
        r == doc_marked(outs_view(outs@)),
{
    let ghost ov = outs_view(outs@);
    let mut i: usize = 0;
    while i < outs.len()
        invariant
            i <= outs@.len(),
            ov == outs_view(outs@),
            forall|a: int, k: int|
                0 <= a < i && 0 <= k < ov[a].runs.len() ==> !marks_handwriting(#[trigger] ov[a].runs[k].1),
        decreases outs@.len() - i,
    {
        let mut k: usize = 0;
        while k < outs[i].runs.len()
            invariant
                i < outs@.len(),
                k <= outs@[i as int].runs@.len(),
                ov == outs_view(outs@),
                forall|a: int, j: int|
                    0 <= a < i && 0 <= j < ov[a].runs.len() ==> !marks_handwriting(#[trigger] ov[a].runs[j].1),
                forall|j: int| 0 <= j < k ==> !marks_handwriting(#[trigger] ov[i as int].runs[j].1),
            decreases outs@[i as int].runs@.len() - k,
        {
            let st = &outs[i].runs[k].style;
            assert(ov[i as int].runs[k as int].1 == *st);
            if st.highlight.is_some() || (st.role_id >= 2 && !st.printed) {
                assert(marks_handwriting(ov[i as int].runs[k as int].1));
                return true;
            }
            k += 1;
        }
        i += 1;
    }
    false
}

fn template_paragraph(d: &DocParagraph, marked: bool) -> (r: DocParagraph)
    ensures
        para_out(r) == templated(para_out(*d), marked),
{
    let mut runs: Vec<TextRun> = Vec::new();
    let mut k: usize = 0;
    while k < d.runs.len()
        invariant
            k <= d.runs@.len(),
            runs@.len() == k,
            forall|j: int| 0 <= j < k ==> (#[trigger] runs@[j]).text@ == d.runs@[j].text@
                && runs@[j].style == template_style(d.runs@[j].style, marked),
        decreases d.runs@.len() - k,
    {
        let r = &d.runs[k];
        let mut st = r.style.duplicate();
        if marked && st.role_id == 0 {
            st.role_id = 1;
            st.printed = true;
        }
        runs.push(TextRun { text: r.text.clone(), style: st });
        k += 1;
    }
    let out = DocParagraph {
        text: d.text.clone(),
        align: d.align,
        font_family: copy_opt(&d.font_family),
        runs,
        fmt: copy_fmt(&d.fmt),
    };
    assert(runs_view(out.runs@) =~= runs_view(d.runs@).map_values(
        |r: (Seq<char>, TextRunStyle)| (r.0, template_style(r.1, marked)),
    ));
    out
}

/// The paragraphs of an imported document from its parsed body: tags
/// expanded into runs of their roles, paragraph text trimmed, empty
/// paragraphs dropped, alignment and font family worked out; then, if any
/// run marks handwriting (a highlight or a handwriting role), the unmarked
/// default-role text becomes the printed template (role 1).
pub fn assemble_paragraphs(parsed: &Vec<ParsedParagraph>, registry: &mut StyleRegistry) -> (r: Vec<
    DocParagraph,
>)
    requires
        old(registry).wf(),
        old(registry).keys().len() + paras_text_len(parsed@) + 3 <= u32::MAX,
        roles_in_range(parsed@),
    ensures
        final(registry).wf(),
        final(registry).keys() == assemble(parsed@, old(registry).keys()).1,
        r@.len() == assemble(parsed@, old(registry).keys()).0.len(),
        forall|i: int|
            0 <= i < r@.len() ==> para_out(#[trigger] r@[i]) == templated(
                assemble(parsed@, old(registry).keys()).0[i],
                doc_marked(assemble(parsed@, old(registry).keys()).0),
            ),
{
    let outs = collect_paragraphs(parsed, registry);
    let marked = any_marked_run(&outs);
    let mut result: Vec<DocParagraph> = Vec::new();
    let mut i: usize = 0;
    while i < outs.len()
        invariant
            i <= outs@.len(),
            result@.len() == i,
            forall|j: int|
                0 <= j < i ==> para_out(#[trigger] result@[j]) == templated(
                    para_out(outs@[j]),
                    marked,
                ),
        decreases outs@.len() - i,
    {
        result.push(template_paragraph(&outs[i], marked));
        i += 1;
    }
    result
}

proof fn lemma_assemble_growth(ps: Seq<ParsedParagraph>, keys: Seq<Seq<char>>)
    ensures
        assemble(ps, keys).1.len() <= keys.len() + paras_text_len(ps),
    decreases ps.len(),
{
    if ps.len() > 0 {
        lemma_assemble_growth(ps.drop_last(), keys);
        let k1 = assemble(ps.drop_last(), keys).1;
        lemma_split_runs_growth(ps.last().runs@, k1);
    }
}

proof fn lemma_paras_prefix_len(ps: Seq<ParsedParagraph>, k: int)
    requires
        0 <= k < ps.len(),
    ensures
        paras_text_len(ps.take(k)) + runs_text_len(ps[k].runs@) <= paras_text_len(ps),
    decreases ps.len(),
{
    let next = ps.take(k + 1);
    assert(next.drop_last() =~= ps.take(k));
    lemma_runs_text_len_nonneg(ps.last().runs@);
    if k == ps.len() - 1 {
        assert(ps.drop_last() =~= ps.take(k));
    } else {
        lemma_paras_prefix_len(ps.drop_last(), k);
        assert(ps.drop_last().take(k) =~= ps.take(k));
    }
}

/// Whether every run's tags ask for roles in range.
fn roles_ok(parsed: &Vec<ParsedParagraph>) -> (r: bool)
    ensures
        r == roles_in_range(parsed@),
{
    let mut i: usize = 0;
    while i < parsed.len()
        invariant
            i <= parsed@.len(),
            forall|a: int, k: int|
                0 <= a < i && 0 <= k < parsed@[a].runs@.len() ==> split_roles_in_range(
                    #[trigger] parsed@[a].runs@[k].text@,
                    0,
                ),
        decreases parsed@.len() - i,
    {
        let mut k: usize = 0;
        while k < parsed[i].runs.len()
            invariant
                i < parsed@.len(),
                k <= parsed@[i as int].runs@.len(),
                forall|a: int, j: int|
                    0 <= a < i && 0 <= j < parsed@[a].runs@.len() ==> split_roles_in_range(
                        #[trigger] parsed@[a].runs@[j].text@,
                        0,
                    ),
                forall|j: int|
                    0 <= j < k ==> split_roles_in_range(#[trigger] parsed@[i as int].runs@[j].text@, 0),
            decreases parsed@[i as int].runs@.len() - k,
        {
            let cs = crate::text::chars_of(parsed[i].runs[k].text.as_str());
            if !split_roles_ok(cs.as_slice()) {
                return false;
            }
            k += 1;
        }
        i += 1;
    }
    true
}

/// The two modes of an imported document: where a run marks handwriting
/// (a highlight or a handwriting role), no run is left in the default role,
/// the default-role text becoming printed (role 1); where none does, every
/// run keeps its style.
pub proof fn lemma_print_template(ps: Seq<ParaOut>)
    ensures
        doc_marked(ps) ==> forall|i: int, k: int|
            0 <= i < ps.len() && 0 <= k < ps[i].runs.len() ==> {
                let r = #[trigger] templated(ps[i], true).runs[k];
                &&& r.0 == ps[i].runs[k].0
                &&& r.1.role_id != 0
                &&& (ps[i].runs[k].1.role_id == 0 ==> r.1.printed && r.1.role_id == 1)
                &&& (ps[i].runs[k].1.role_id != 0 ==> r.1 == ps[i].runs[k].1)
            },
        !doc_marked(ps) ==> forall|i: int| 0 <= i < ps.len() ==> #[trigger] templated(ps[i], false) == ps[i],
{
    assert forall|i: int| 0 <= i < ps.len() implies #[trigger] templated(ps[i], false) == ps[i] by {
        assert(templated(ps[i], false).runs =~= ps[i].runs);
    }
}

/// The total text length of the parsed paragraphs, capped at `cap + 1`.
fn text_len_capped(parsed: &Vec<ParsedParagraph>, cap: usize) -> (r: usize)
    requires
        cap < 0xFFFF_FFFF,
    ensures
        r <= cap + 1,
        r <= cap ==> r == paras_text_len(parsed@),
        r > cap ==> paras_text_len(parsed@) > cap,
{
    let mut total: usize = 0;
    let mut i: usize = 0;
    assert(parsed@.take(0) =~= Seq::<ParsedParagraph>::empty());
    while i < parsed.len()
        invariant
            i <= parsed@.len(),
            cap < 0xFFFF_FFFF,
            total <= cap,
            total == paras_text_len(parsed@.take(i as int)),
        decreases parsed@.len() - i,
    {
        let ghost pre = parsed@.take(i as int);
        let ghost next = parsed@.take(i + 1);
        assert(next.drop_last() =~= pre);
        let p = &parsed[i];
        let mut k: usize = 0;
        let mut sub: usize = 0;
        assert(p.runs@.take(0) =~= Seq::<TextRun>::empty());
        while k < p.runs.len()
            invariant
                i < parsed@.len(),
                *p == parsed@[i as int],
                cap < 0xFFFF_FFFF,
                total == paras_text_len(parsed@.take(i as int)),
                k <= p.runs@.len(),
                total <= cap,
                total + sub <= cap,
                sub == runs_text_len(p.runs@.take(k as int)),
            decreases p.runs@.len() - k,
        {
            proof {
                lemma_runs_prefix_len(p.runs@, k as int);
            }
            let n = p.runs[k].text.as_str().unicode_len();
            if n > cap - total - sub {
                proof {
                    lemma_runs_text_len_nonneg(p.runs@);
                    lemma_prefix_le_whole(parsed@, i as int);
                }
                return cap + 1;
            }
            sub = sub + n;
            k += 1;
        }
        assert(p.runs@.take(k as int) =~= p.runs@);
        total = total + sub;
        i += 1;
    }
    assert(parsed@.take(i as int) =~= parsed@);
    total
}

proof fn lemma_prefix_le_whole(ps: Seq<ParsedParagraph>, i: int)
    requires
        0 <= i < ps.len(),
    ensures
        paras_text_len(ps.take(i)) + runs_text_len(ps[i].runs@) <= paras_text_len(ps),
{
    lemma_paras_prefix_len(ps, i);
}

/// What importing a document whose body part gives the events `evs` and
/// whose style sheet gives `sheet_evs` yields.
pub open spec fn imported(
    evs: Seq<XmlEvent>,
    ps: Vec<ParsedParagraph>,
    keys: Seq<Seq<char>>,
    sheet_evs: Seq<XmlEvent>,
    r: (Vec<DocParagraph>, Vec<StyleDef>, Option<u32>),
) -> bool {
    let a = assemble(ps@, keys);
    &&& document_of(evs, Seq::empty(), Ok(ps), keys)
    &&& roles_in_range(ps@)
    &&& r.0@.len() == a.0.len()
    &&& forall|i: int|
        0 <= i < r.0@.len() ==> para_out(#[trigger] r.0@[i]) == templated(a.0[i], doc_marked(a.0))
    &&& style_views(r.1@) == sheet_run(sheet_evs, sheet_start()).styles
    &&& r.2 == sheet_run(sheet_evs, sheet_start()).defaults_sz
}

/// The paragraphs of an import result, by their values.
pub open spec fn import_out(v: (Vec<DocParagraph>, Vec<StyleDef>, Option<u32>)) -> Seq<ParaOut> {
    v.0@.map_values(|d: DocParagraph| para_out(d))
}

/// The print template at import: an imported document marks handwriting
/// exactly when its assembled paragraphs do; then every run that was in the
/// default role comes out printed in role 1, and every other run keeps its
/// style; a document that marks no handwriting comes out as assembled.
pub proof fn lemma_import_print_template(
    evs: Seq<XmlEvent>,
    ps: Vec<ParsedParagraph>,
    keys: Seq<Seq<char>>,
    sheet_evs: Seq<XmlEvent>,
    v: (Vec<DocParagraph>, Vec<StyleDef>, Option<u32>),
)
    requires
        imported(evs, ps, keys, sheet_evs, v),
    ensures
        doc_marked(import_out(v)) == doc_marked(assemble(ps@, keys).0),
        doc_marked(import_out(v)) ==> forall|i: int, k: int|
            0 <= i < import_out(v).len() && 0 <= k < import_out(v)[i].runs.len() ==> {
                let a = assemble(ps@, keys).0[i].runs[k];
                let r = #[trigger] import_out(v)[i].runs[k];
                &&& r.0 == a.0
                &&& r.1.role_id != 0
                &&& (a.1.role_id == 0 ==> r.1.printed && r.1.role_id == 1)
                &&& (a.1.role_id != 0 ==> r.1 == a.1)
            },
        !doc_marked(import_out(v)) ==> import_out(v) == assemble(ps@, keys).0,
{
    let a = assemble(ps@, keys).0;
    let out = import_out(v);
    let m = doc_marked(a);
    lemma_print_template(a);
    assert forall|i: int| 0 <= i < out.len() implies #[trigger] out[i] == templated(a[i], m) by {
        assert(out[i] == para_out(v.0@[i]));
    }
    if m {
        let (i, k) = choose|i: int, k: int|
            0 <= i < a.len() && 0 <= k < a[i].runs.len() && marks_handwriting(#[trigger] a[i].runs[k].1);
        assert(out[i] == templated(a[i], m));
        assert(out[i].runs[k].1 == template_style(a[i].runs[k].1, m));
        assert(marks_handwriting(out[i].runs[k].1));
        assert(doc_marked(out));
        assert forall|i: int, k: int|
            0 <= i < out.len() && 0 <= k < out[i].runs.len() implies {
                let ar = a[i].runs[k];
                let r = #[trigger] out[i].runs[k];
                &&& r.0 == ar.0
                &&& r.1.role_id != 0
                &&& (ar.1.role_id == 0 ==> r.1.printed && r.1.role_id == 1)
                &&& (ar.1.role_id != 0 ==> r.1 == ar.1)
            } by {
            assert(out[i] == templated(a[i], m));
            assert(templated(a[i], true).runs[k].1.role_id != 0);
        }
    } else {
        assert(out =~= a) by {
            assert forall|i: int| 0 <= i < out.len() implies out[i] == a[i] by {
                assert(templated(a[i], false) == a[i]);
            }
        }
    }
}

/// The message for a tag that asks for a role past the last one.
pub open spec fn role_overflow_message() -> Seq<char> {
    "role number out of range"@
}

/// The events of a style sheet part, none where there is none.
pub open spec fn sheet_events(styles_xml: Option<String>) -> Seq<XmlEvent> {
    match styles_xml {
        None => Seq::empty(),
        Some(x) => xml_events(x@, true),
    }
}

/// Parsed paragraphs that can be imported: every tag asks for a role in
/// range, and the roles that the text can still register stay below the
/// last role number.
pub open spec fn import_fits(ps: Seq<ParsedParagraph>, keys: Seq<Seq<char>>) -> bool {
    roles_in_range(ps) && keys.len() + paras_text_len(ps) <= 0xFFFF_FFFC
}

/// Imports a Word document from its body part and its style sheet (if any):
/// the paragraphs as `assemble_paragraphs` makes them from the body, roles
/// numbered from 2 in the order met, and the style sheet with its default
/// run size, from which first-line indents are worked out. Fails with the
/// reader's message on a body that is not well formed, and where a tag asks
/// for a role past the last one.
pub fn import_document(document_xml: &str, styles_xml: &Option<String>) -> (r: Result<
    (Vec<DocParagraph>, Vec<StyleDef>, Option<u32>),
    String,
>)
    requires
        document_xml@.len() + 4 <= u32::MAX,
    ensures
        r matches Ok(v) ==> exists|ps: Vec<ParsedParagraph>, keys: Seq<Seq<char>>|
            #[trigger] imported(xml_events(document_xml@, false), ps, keys, sheet_events(*styles_xml), v)
                && import_fits(ps@, keys),
        r matches Err(m) ==> doc_run(xml_events(document_xml@, false), doc_start(Seq::empty())).error == Some(
            m@,
        ) || (m@ == role_overflow_message() && exists|ps: Vec<ParsedParagraph>, keys: Seq<Seq<char>>|
            #[trigger] document_of(xml_events(document_xml@, false), Seq::empty(), Ok(ps), keys) && !import_fits(
                ps@,
                keys,
            )),
        (doc_run(xml_events(document_xml@, false), doc_start(Seq::empty())).error is None && forall|
            ps: Vec<ParsedParagraph>,
            keys: Seq<Seq<char>>,
        | #[trigger] document_of(xml_events(document_xml@, false), Seq::empty(), Ok(ps), keys) ==> import_fits(
            ps@,
            keys,
        )) ==> r is Ok,
{
    let mut registry = StyleRegistry::new();
    let evs = read_xml_events(document_xml, false);
    let parsed = match parse_document_events(evs.as_slice(), &mut registry) {
        Ok(ps) => ps,
        Err(m) => {
            assert(document_of(evs@, Seq::empty(), Err(m), registry.keys()));
            return Err(m);
        },
    };
    let ghost keys = registry.keys();
    assert(document_of(evs@, Seq::empty(), Ok(parsed), keys));
    if !roles_ok(&parsed) {
        assert(!import_fits(parsed@, keys));
        return Err(role_overflow());
    }
    let nkeys = registry.registered_keys().len();
    assert(nkeys == keys.len());
    if nkeys > 0xFFFF_FFFC {
        proof {
            lemma_paras_text_len_nonneg(parsed@);
        }
        assert(!import_fits(parsed@, keys));
        return Err(role_overflow());
    }
    let cap: usize = (0xFFFF_FFFC - nkeys) as usize;
    let total = text_len_capped(&parsed, cap);
    if total > cap {
        assert(!import_fits(parsed@, keys));
        return Err(role_overflow());
    }
    assert(import_fits(parsed@, keys));
    let paragraphs = assemble_paragraphs(&parsed, &mut registry);
    let sevs = match styles_xml {
        None => Vec::new(),
        Some(x) => read_xml_events(x.as_str(), true),
    };
    let (styles, defaults_sz) = parse_style_events(sevs.as_slice());
    let out = (paragraphs, styles, defaults_sz);
    let result: Result<(Vec<DocParagraph>, Vec<StyleDef>, Option<u32>), String> = Ok(out);
    assert(imported(evs@, parsed, keys, sevs@, result->Ok_0));
    assert(sevs@ == sheet_events(*styles_xml));
    result
}

// ---------------------------------------------------------------------------
// The document's main font
// ---------------------------------------------------------------------------
/// All runs of the paragraphs, in order.
pub open spec fn doc_runs(ps: Seq<DocParagraph>) -> Seq<(Seq<char>, TextRunStyle)>
    decreases ps.len(),
{
    if ps.len() == 0 {
        Seq::empty()
    } else {
        doc_runs(ps.drop_last()) + runs_view(ps.last().runs@)
    }
}

/// A run counted for the font: every run, or only printed or unhighlighted
/// ones.
pub open spec fn counted(s: TextRunStyle, all: bool) -> bool {
    all || s.printed || s.highlight is None
}

/// The font a counted run names (trimmed, not blank) and its weight: its
/// number of characters, at least 1.
pub open spec fn font_entry(r: (Seq<char>, TextRunStyle), all: bool) -> Seq<(Seq<char>, int)> {
    match r.1.font_family {
        Some(f) => if counted(r.1, all) && trim_seq(f@).len() > 0 {
            seq![(trim_seq(f@), if r.0.len() > 0 { r.0.len() as int } else { 1 })]
        } else {
            Seq::empty()
        },
        None => Seq::empty(),
    }
}

pub open spec fn font_entries(rs: Seq<(Seq<char>, TextRunStyle)>, all: bool) -> Seq<(Seq<char>, int)>
    decreases rs.len(),
{
    if rs.len() == 0 {
        Seq::empty()
    } else {
        font_entries(rs.drop_last(), all) + font_entry(rs.last(), all)
    }
}

/// The total weight of a font among the entries.
pub open spec fn font_weight(es: Seq<(Seq<char>, int)>, name: Seq<char>) -> int
    decreases es.len(),
{
    if es.len() == 0 {
        0
    } else {
        font_weight(es.drop_last(), name) + if es.last().0 == name {
            es.last().1
        } else {
            0
        }
    }
}

/// The sum of all weights.
pub open spec fn total_weight(es: Seq<(Seq<char>, int)>) -> int
    decreases es.len(),
{
    if es.len() == 0 {
        0
    } else {
        total_weight(es.drop_last()) + es.last().1
    }
}

/// `name` has the largest weight, and is the first font met with it.
pub open spec fn heaviest(es: Seq<(Seq<char>, int)>, name: Seq<char>) -> bool {
    exists|b: int|
        0 <= b < es.len() && es[b].0 == name && (forall|i: int|
            0 <= i < es.len() ==> font_weight(es, #[trigger] es[i].0) <= font_weight(es, name))
            && (forall|i: int| 0 <= i < b ==> font_weight(es, #[trigger] es[i].0) < font_weight(es, name))
}

/// The fonts the document is counted on: those of printed or unhighlighted
/// runs, or, if none names one, those of all runs.
pub open spec fn doc_font_entries(ps: Seq<DocParagraph>) -> Seq<(Seq<char>, int)> {
    if font_entries(doc_runs(ps), false).len() > 0 {
        font_entries(doc_runs(ps), false)
    } else {
        font_entries(doc_runs(ps), true)
    }
}

proof fn lemma_weights(es: Seq<(Seq<char>, int)>, name: Seq<char>)
    requires
        forall|i: int| 0 <= i < es.len() ==> #[trigger] es[i].1 >= 1,
    ensures
        0 <= font_weight(es, name) <= total_weight(es),
        total_weight(es) >= 0,
    decreases es.len(),
{
    if es.len() > 0 {
        lemma_weights(es.drop_last(), name);
    }
}

proof fn lemma_entries_positive(rs: Seq<(Seq<char>, TextRunStyle)>, all: bool)
    ensures
        forall|i: int|
            0 <= i < font_entries(rs, all).len() ==> #[trigger] font_entries(rs, all)[i].1 >= 1,
    decreases rs.len(),
{
    if rs.len() > 0 {
        lemma_entries_positive(rs.drop_last(), all);
        let a = font_entries(rs.drop_last(), all);
        let b = font_entry(rs.last(), all);
        assert forall|i: int| 0 <= i < (a + b).len() implies #[trigger] (a + b)[i].1 >= 1 by {
            if i >= a.len() {
                assert((a + b)[i] == b[i - a.len()]);
            } else {
                assert((a + b)[i] == a[i]);
            }
        }
    }
}

proof fn lemma_weight_step(es: Seq<(Seq<char>, int)>, k: int, name: Seq<char>)
    requires
        0 <= k < es.len(),
    ensures
        font_weight(es.take(k + 1), name) == font_weight(es.take(k), name) + if es[k].0 == name {
            es[k].1
        } else {
            0
        },
        total_weight(es.take(k + 1)) == total_weight(es.take(k)) + es[k].1,
{
    assert(es.take(k + 1).drop_last() =~= es.take(k));
}

proof fn lemma_weight_prefix_le(es: Seq<(Seq<char>, int)>, k: int, name: Seq<char>)
    requires
        0 <= k <= es.len(),
        forall|i: int| 0 <= i < es.len() ==> #[trigger] es[i].1 >= 1,
    ensures
        font_weight(es.take(k), name) <= font_weight(es, name),
        total_weight(es.take(k)) <= total_weight(es),
    decreases es.len() - k,
{
    if k < es.len() {
        lemma_weight_prefix_le(es, k + 1, name);
        lemma_weight_step(es, k, name);
    } else {
        assert(es.take(k) =~= es);
    }
}

/// The weight of every entry's font.
fn entry_weight(names: &Vec<Vec<char>>, weights: &Vec<usize>, j: usize) -> (r: usize)
    requires
        names@.len() == weights@.len(),
        j < names@.len(),
        forall|i: int| 0 <= i < weights@.len() ==> #[trigger] weights@[i] >= 1,
        total_weight(entries_of(names@, weights@)) <= usize::MAX,
    ensures
        r == font_weight(entries_of(names@, weights@), names@[j as int]@),
{
    let ghost es = entries_of(names@, weights@);
    let mut sum: usize = 0;
    let mut i: usize = 0;
    assert(es.take(0) =~= Seq::<(Seq<char>, int)>::empty());
    while i < names.len()
        invariant
            i <= names@.len(),
            names@.len() == weights@.len(),
            j < names@.len(),
            es == entries_of(names@, weights@),
            forall|x: int| 0 <= x < weights@.len() ==> #[trigger] weights@[x] >= 1,
            total_weight(es) <= usize::MAX,
            sum == font_weight(es.take(i as int), names@[j as int]@),
        decreases names@.len() - i,
    {
        proof {
            lemma_weight_step(es, i as int, names@[j as int]@);
            lemma_weight_prefix_le(es, i + 1, names@[j as int]@);
            lemma_weights(es.take(i + 1), names@[j as int]@);
            assert forall|x: int| 0 <= x < es.take(i + 1).len() implies #[trigger] es.take(i + 1)[x].1 >= 1 by {
                assert(es[x].1 == weights@[x]);
            }
            assert forall|x: int| 0 <= x < es.len() implies #[trigger] es[x].1 >= 1 by {
                assert(es[x].1 == weights@[x]);
            }
        }
        if crate::text::seq_eq(names[i].as_slice(), names[j].as_slice()) {
            sum = sum + weights[i];
        }
        i += 1;
    }
    assert(es.take(i as int) =~= es);
    sum
}

/// Entries by their values.
pub open spec fn entries_of(names: Seq<Vec<char>>, weights: Seq<usize>) -> Seq<(Seq<char>, int)> {
    Seq::new(names.len(), |i: int| (names[i]@, weights[i] as int))
}

/// Collects the fonts of the counted runs with their weights.
fn collect_fonts(paragraphs: &[DocParagraph], all: bool) -> (r: (Vec<Vec<char>>, Vec<usize>))
    requires
        total_weight(font_entries(doc_runs(paragraphs@), all)) <= usize::MAX,
    ensures
        r.0@.len() == r.1@.len(),
        entries_of(r.0@, r.1@) == font_entries(doc_runs(paragraphs@), all),
        forall|i: int| 0 <= i < r.1@.len() ==> #[trigger] r.1@[i] >= 1,
{
    let ghost target = font_entries(doc_runs(paragraphs@), all);
    let mut names: Vec<Vec<char>> = Vec::new();
    let mut weights: Vec<usize> = Vec::new();
    let mut p: usize = 0;
    assert(paragraphs@.take(0) =~= Seq::<DocParagraph>::empty());
    proof {
        lemma_entries_positive(doc_runs(paragraphs@), all);
        lemma_doc_runs_prefix(paragraphs@, 0);
    }
    while p < paragraphs.len()
        invariant
            p <= paragraphs@.len(),
            names@.len() == weights@.len(),
            target == font_entries(doc_runs(paragraphs@), all),
            total_weight(target) <= usize::MAX,
            forall|i: int| 0 <= i < target.len() ==> #[trigger] target[i].1 >= 1,
            entries_of(names@, weights@) == font_entries(doc_runs(paragraphs@.take(p as int)), all),
            forall|i: int| 0 <= i < weights@.len() ==> #[trigger] weights@[i] >= 1,
        decreases paragraphs@.len() - p,
    {
        let ghost base = doc_runs(paragraphs@.take(p as int));
        let ghost rv = runs_view(paragraphs@[p as int].runs@);
        proof {
            assert(paragraphs@.take(p + 1).drop_last() =~= paragraphs@.take(p as int));
        }
        let runs = &paragraphs[p].runs;
        let mut k: usize = 0;
        assert(base + rv.take(0) =~= base);
        while k < runs.len()
            invariant
                p < paragraphs@.len(),
                *runs == paragraphs@[p as int].runs,
                rv == runs_view(runs@),
                k <= runs@.len(),
                names@.len() == weights@.len(),
                target == font_entries(doc_runs(paragraphs@), all),
                total_weight(target) <= usize::MAX,
                forall|i: int| 0 <= i < target.len() ==> #[trigger] target[i].1 >= 1,
                base == doc_runs(paragraphs@.take(p as int)),
                doc_runs(paragraphs@.take(p + 1)) == base + rv,
                entries_of(names@, weights@) == font_entries(base + rv.take(k as int), all),
                forall|i: int| 0 <= i < weights@.len() ==> #[trigger] weights@[i] >= 1,
            decreases runs@.len() - k,
        {
            let ghost cur = base + rv.take(k as int);
            let ghost nxt = base + rv.take(k + 1);
            assert(nxt.drop_last() =~= cur);
            assert(nxt.last() == rv[k as int]);
            proof {
                lemma_doc_runs_prefix(paragraphs@, p + 1);
                lemma_entries_prefix(doc_runs(paragraphs@), nxt.len() as int, all);
                assert(doc_runs(paragraphs@).take(nxt.len() as int) =~= nxt);
                lemma_entries_positive(nxt, all);
                lemma_total_prefix_le(target, font_entries(nxt, all));
            }
            let r = &runs[k];
            if let Some(f) = &r.style.font_family {
                if all || r.style.printed || r.style.highlight.is_none() {
                    let t = trim_str(f.as_str());
                    if t.len() > 0 {
                        let n = r.text.as_str().unicode_len();
                        let w: usize = if n > 0 {
                            n
                        } else {
                            1
                        };
                        let ghost before = entries_of(names@, weights@);
                        names.push(t);
                        weights.push(w);
                        assert(entries_of(names@, weights@) =~= before + font_entry(rv[k as int], all));
                    }
                }
            }
            assert(entries_of(names@, weights@) =~= font_entries(nxt, all));
            k += 1;
        }
        assert(rv.take(k as int) =~= rv);
        p += 1;
    }
    assert(paragraphs@.take(p as int) =~= paragraphs@);
    (names, weights)
}

proof fn lemma_doc_runs_prefix(ps: Seq<DocParagraph>, p: int)
    requires
        0 <= p <= ps.len(),
    ensures
        doc_runs(ps.take(p)).len() <= doc_runs(ps).len(),
        doc_runs(ps).take(doc_runs(ps.take(p)).len() as int) == doc_runs(ps.take(p)),
    decreases ps.len() - p,
{
    if p < ps.len() {
        lemma_doc_runs_prefix(ps, p + 1);
        assert(ps.take(p + 1).drop_last() =~= ps.take(p));
        let a = doc_runs(ps.take(p));
        let b = doc_runs(ps.take(p + 1));
        assert(b.take(a.len() as int) =~= a);
        assert(doc_runs(ps).take(a.len() as int) =~= doc_runs(ps).take(b.len() as int).take(a.len() as int));
    } else {
        assert(ps.take(p) =~= ps);
        assert(doc_runs(ps).take(doc_runs(ps).len() as int) =~= doc_runs(ps));
    }
}

proof fn lemma_entries_prefix(rs: Seq<(Seq<char>, TextRunStyle)>, n: int, all: bool)
    requires
        0 <= n <= rs.len(),
    ensures
        font_entries(rs.take(n), all).len() <= font_entries(rs, all).len(),
        font_entries(rs, all).take(font_entries(rs.take(n), all).len() as int) == font_entries(
            rs.take(n),
            all,
        ),
    decreases rs.len() - n,
{
    if n < rs.len() {
        lemma_entries_prefix(rs, n + 1, all);
        assert(rs.take(n + 1).drop_last() =~= rs.take(n));
        let a = font_entries(rs.take(n), all);
        let b = font_entries(rs.take(n + 1), all);
        assert(b.take(a.len() as int) =~= a);
        assert(font_entries(rs, all).take(a.len() as int) =~= font_entries(rs, all).take(
            b.len() as int,
        ).take(a.len() as int));
    } else {
        assert(rs.take(n) =~= rs);
        assert(font_entries(rs, all).take(font_entries(rs, all).len() as int) =~= font_entries(rs, all));
    }
}

proof fn lemma_total_prefix_le(es: Seq<(Seq<char>, int)>, pre: Seq<(Seq<char>, int)>)
    requires
        pre.len() <= es.len(),
        es.take(pre.len() as int) == pre,
        forall|i: int| 0 <= i < es.len() ==> #[trigger] es[i].1 >= 1,
    ensures
        total_weight(pre) <= total_weight(es),
{
    lemma_weight_prefix_le(es, pre.len() as int, Seq::empty());
}

/// Picks the font with the largest weight, the first met among equals.
fn heaviest_font(names: &Vec<Vec<char>>, weights: &Vec<usize>) -> (r: Option<String>)
    requires
        names@.len() == weights@.len(),
        forall|i: int| 0 <= i < weights@.len() ==> #[trigger] weights@[i] >= 1,
        total_weight(entries_of(names@, weights@)) <= usize::MAX,
    ensures
        names@.len() == 0 ==> r is None,
        names@.len() > 0 ==> (r matches Some(n) && heaviest(entries_of(names@, weights@), n@)),
{
    let ghost es = entries_of(names@, weights@);
    if names.len() == 0 {
        return None;
    }
    let mut best: usize = 0;
    let mut best_w = entry_weight(names, weights, 0);
    let mut j: usize = 1;
    while j < names.len()
        invariant
            1 <= j <= names@.len(),
            names@.len() == weights@.len(),
            es == entries_of(names@, weights@),
            forall|i: int| 0 <= i < weights@.len() ==> #[trigger] weights@[i] >= 1,
            total_weight(es) <= usize::MAX,
            best < j,
            best_w == font_weight(es, es[best as int].0),
            forall|i: int| 0 <= i < j ==> font_weight(es, #[trigger] es[i].0) <= best_w,
            forall|i: int| 0 <= i < best ==> font_weight(es, #[trigger] es[i].0) < best_w,
        decreases names@.len() - j,
    {
        let w = entry_weight(names, weights, j);
        assert(es[j as int].0 == names@[j as int]@);
        if w > best_w {
            best = j;
            best_w = w;
        }
        j += 1;
    }
    assert(es[best as int].0 == names@[best as int]@);
    let n = crate::text::string_of(names[best].as_slice());
    assert(heaviest(es, n@)) by {
        assert(0 <= best < es.len() && es[best as int].0 == n@);
    }
    Some(n)
}

/// A run that names a font (not only white space).
pub open spec fn names_font(r: (Seq<char>, TextRunStyle)) -> bool {
    r.1.font_family matches Some(f) && trim_seq(f@).len() > 0
}

proof fn lemma_font_entries_empty(rs: Seq<(Seq<char>, TextRunStyle)>)
    ensures
        font_entries(rs, true).len() == 0 <==> forall|i: int| 0 <= i < rs.len() ==> !names_font(#[trigger] rs[i]),
        font_entries(rs, false).len() > 0 ==> font_entries(rs, true).len() > 0,
    decreases rs.len(),
{
    if rs.len() > 0 {
        lemma_font_entries_empty(rs.drop_last());
        if font_entries(rs, true).len() == 0 {
            assert forall|i: int| 0 <= i < rs.len() implies !names_font(#[trigger] rs[i]) by {
                if i < rs.len() - 1 {
                    assert(rs[i] == rs.drop_last()[i]);
                }
            }
        }
        if forall|i: int| 0 <= i < rs.len() ==> !names_font(#[trigger] rs[i]) {
            assert forall|i: int| 0 <= i < rs.drop_last().len() implies !names_font(#[trigger] rs.drop_last()[i]) by {
                assert(rs[i] == rs.drop_last()[i]);
            }
            assert(!names_font(rs[rs.len() - 1]));
        }
    }
}

/// The document has no main font exactly when none of its runs names a
/// font.
pub proof fn lemma_no_doc_font(ps: Seq<DocParagraph>)
    ensures
        doc_font_entries(ps).len() == 0 <==> forall|i: int|
            0 <= i < doc_runs(ps).len() ==> !names_font(#[trigger] doc_runs(ps)[i]),
{
    lemma_font_entries_empty(doc_runs(ps));
}

/// The main font of an imported document: the font family that the most
/// text is set in (each run counting its characters, at least one), among
/// printed or unhighlighted runs, or among all runs if none of those names a
/// font; the first met among equals; `None` if no run names a font.
pub fn detect_doc_font_family(paragraphs: &[DocParagraph]) -> (r: Option<String>)
    requires
        total_weight(font_entries(doc_runs(paragraphs@), true)) <= usize::MAX,
    ensures
        doc_font_entries(paragraphs@).len() == 0 ==> r is None,
        doc_font_entries(paragraphs@).len() > 0 ==> (r matches Some(n) && heaviest(
            doc_font_entries(paragraphs@),
            n@,
        )),
{
    proof {
        lemma_counted_weight_le(doc_runs(paragraphs@));
    }
    let (names, weights) = collect_fonts(paragraphs, false);
    if names.len() > 0 {
        heaviest_font(&names, &weights)
    } else {
        let (names2, weights2) = collect_fonts(paragraphs, true);
        heaviest_font(&names2, &weights2)
    }
}

proof fn lemma_counted_weight_le(rs: Seq<(Seq<char>, TextRunStyle)>)
    ensures
        total_weight(font_entries(rs, false)) <= total_weight(font_entries(rs, true)),
    decreases rs.len(),
{
    if rs.len() > 0 {
        lemma_counted_weight_le(rs.drop_last());
        lemma_total_concat(font_entries(rs.drop_last(), false), font_entry(rs.last(), false));
        lemma_total_concat(font_entries(rs.drop_last(), true), font_entry(rs.last(), true));
    }
}

proof fn lemma_total_concat(a: Seq<(Seq<char>, int)>, b: Seq<(Seq<char>, int)>)
    requires
        b.len() <= 1,
    ensures
        total_weight(a + b) == total_weight(a) + if b.len() == 1 {
            b[0].1
        } else {
            0
        },
{
    if b.len() == 1 {
        assert((a + b).drop_last() =~= a);
    } else {
        assert(a + b =~= a);
    }
}

/// Registering one key adds at most one.
proof fn lemma_register_len(keys: Seq<Seq<char>>, p: PropsV)
    ensures
        run_style_v(p, keys).1.len() <= keys.len() + 1,
{
}

} // verus!
