//! Imported documents: which kind a file is, how its page images are named,
//! and the errors of turning a document into page images.

use vstd::prelude::*;
use crate::text::{chars_of, string_of, contains_seq, push_str, push_chars, str_eq};
use crate::fonts::{
    unicode_lower, to_lowercase, path_file_stem, plain_name, std_stem, std_extension, all_ascii, ascii_lower,
    lemma_last_dot, last_dot,
};

verus! {

/// Why a document could not be turned into page images.
#[derive(Debug)]
pub enum DocRenderError {
    /// Not a `.pdf` or `.docx` file (holds the extension, with its dot).
    UnsupportedExtension(String),
    /// The PDF has no page to render.
    NoPages(String),
    /// Neither Microsoft Word nor LibreOffice is there to convert a DOCX.
    DocxConversionUnavailable,
    /// The PDF rendering library could not be loaded.
    PdfiumUnavailable(String),
    Other(String),
}

/// The kinds of documents that can be imported.
#[derive(Debug, Clone, Copy, PartialEq, Eq, Structural)]
pub enum DocumentKind {
    Pdf,
    Docx,
}

/// `Path::extension`, as text. Which part of the path counts as the
/// extension depends on the platform's path syntax; the result is a piece of
/// `path`, and for a plain file name it is the extension std documents (see
/// [`std_extension`]).
#[verifier::external_body]
fn path_extension(path: &str) -> (r: Option<String>)
    ensures
        r matches Some(e) ==> contains_seq(path@, e@),
        plain_name(path@) ==> match r {
            Some(e) => std_extension(path@) == Some(e@),
            None => std_extension(path@) is None,
        },
{
    std::path::Path::new(path).extension().map(|e| e.to_string_lossy().into_owned())
}

/// The kind of a document with the given extension (compared in lower
/// case): `pdf` and `docx` are accepted, anything else (no extension
/// counting as empty) is refused with `.<extension>`.
pub open spec fn kind_of_extension(ext: Seq<char>) -> Result<DocumentKind, Seq<char>> {
    let e = unicode_lower(ext);
    if e == "pdf"@ {
        Ok(DocumentKind::Pdf)
    } else if e == "docx"@ {
        Ok(DocumentKind::Docx)
    } else {
        Err(seq!['.'] + e)
    }
}

/// The result of `kind_for_extension` for an extension text.
pub open spec fn kind_result(r: Result<DocumentKind, DocRenderError>, ext: Seq<char>) -> bool {
    match kind_of_extension(ext) {
        Ok(k) => r == Ok::<DocumentKind, DocRenderError>(k),
        Err(m) => r matches Err(DocRenderError::UnsupportedExtension(s)) && s@ == m,
    }
}

/// The document kind for a file extension (`None`: no extension).
pub fn kind_for_extension(ext: Option<&str>) -> (r: Result<DocumentKind, DocRenderError>)
    ensures
        match kind_of_extension(match ext { Some(e) => e@, None => Seq::empty() }) {
            Ok(k) => r == Ok::<DocumentKind, DocRenderError>(k),
            Err(m) => r matches Err(DocRenderError::UnsupportedExtension(s)) && s@ == m,
        },
        ext matches Some(e) ==> (all_ascii(e@) ==> unicode_lower(e@) == e@.map_values(
            |c: char| ascii_lower(c),
        )),
        ext is None ==> unicode_lower(Seq::<char>::empty()) == Seq::<char>::empty(),
{
    let e = match ext {
        Some(e) => to_lowercase(e),
        None => to_lowercase(""),
    };
    proof {
        assert(""@ =~= Seq::<char>::empty()) by {
            reveal_strlit("");
        }
    }
    if str_eq(e.as_str(), "pdf") {
        Ok(DocumentKind::Pdf)
    } else if str_eq(e.as_str(), "docx") {
        Ok(DocumentKind::Docx)
    } else {
        let mut s = String::new();
        s.push('.');
        push_str(&mut s, e.as_str());
        Err(DocRenderError::UnsupportedExtension(s))
    }
}

/// The extension text of a plain file name, empty where it has none.
pub open spec fn plain_extension(path: Seq<char>) -> Seq<char> {
    match std_extension(path) {
        Some(e) => e,
        None => Seq::empty(),
    }
}

/// The kind of the document at `path`, by its extension.
pub fn document_kind(path: &str) -> (r: Result<DocumentKind, DocRenderError>)
    ensures
        exists|ext: Seq<char>| (ext.len() == 0 || contains_seq(path@, ext)) && #[trigger] kind_result(r, ext),
        plain_name(path@) ==> kind_result(r, plain_extension(path@)),
        plain_name(path@) && all_ascii(path@) ==> unicode_lower(plain_extension(path@))
            == plain_extension(path@).map_values(|c: char| ascii_lower(c)),
{
    let ext = path_extension(path);
    let ghost e = match &ext {
        Some(x) => x@,
        None => Seq::<char>::empty(),
    };
    let r = match &ext {
        Some(x) => kind_for_extension(Some(x.as_str())),
        None => kind_for_extension(None),
    };
    assert((e.len() == 0 || contains_seq(path@, e)) && kind_result(r, e));
    proof {
        lemma_last_dot(path@, path@.len() as int);
        if plain_name(path@) && all_ascii(path@) {
            if let Some(x) = std_extension(path@) {
                let i = last_dot(path@, path@.len() as int)->0;
                assert(x == path@.skip(i + 1));
                assert forall|j: int| 0 <= j < x.len() implies (x[j] as u32) < 128 by {
                    assert(x[j] == path@[j + i + 1]);
                }
            } else {
                assert(Seq::<char>::empty().map_values(|c: char| ascii_lower(c)) =~= Seq::<char>::empty());
            }
        }
    }
    r
}

/// A character kept in page file names: ASCII letters and digits, `-`,
/// `_`, and any non-ASCII character.
pub open spec fn keeps_in_prefix(c: char) -> bool {
    ('a' <= c <= 'z') || ('A' <= c <= 'Z') || ('0' <= c <= '9') || c == '-' || c == '_' || (c as u32)
        >= 0x80
}

/// A file stem made safe for page file names: other characters become `_`.
pub open spec fn sanitize_prefix(stem: Seq<char>) -> Seq<char> {
    Seq::new(stem.len(), |i: int| if keeps_in_prefix(stem[i]) { stem[i] } else { '_' })
}

/// The sanitized stem, `page` when there is none.
pub open spec fn prefix_of_stem(stem: Option<Seq<char>>) -> Seq<char> {
    sanitize_prefix(
        match stem {
            Some(s) => s,
            None => "page"@,
        },
    )
}

/// The page-name prefix for a stem: the sanitized stem, or `page` when the
/// path has no stem.
pub fn sanitized_prefix(stem: Option<&str>) -> (r: String)
    ensures
        r@ == sanitize_prefix(match stem { Some(s) => s@, None => "page"@ }),
{
    let cs = match stem {
        Some(s) => chars_of(s),
        None => chars_of("page"),
    };
    let mut out = String::new();
    let mut k: usize = 0;
    while k < cs.len()
        invariant
            k <= cs.len(),
            out@ == sanitize_prefix(cs@).take(k as int),
        decreases cs.len() - k,
    {
        let c = cs[k];
        let keep = ('a' <= c && c <= 'z') || ('A' <= c && c <= 'Z') || ('0' <= c && c <= '9') || c
            == '-' || c == '_' || (c as u32) >= 0x80;
        if keep {
            out.push(c);
        } else {
            out.push('_');
        }
        k += 1;
        assert(out@ =~= sanitize_prefix(cs@).take(k as int));
    }
    assert(sanitize_prefix(cs@).take(cs.len() as int) =~= sanitize_prefix(cs@));
    out
}

/// Page file prefix of a document: its file stem with characters outside
/// ASCII letters, digits, `-` and `_` (non-ASCII ones are kept) replaced by
/// `_`.
pub fn page_prefix(path: &str) -> (r: String)
    ensures
        exists|stem: Option<Seq<char>>|
            (stem matches Some(s) ==> contains_seq(path@, s)) && r@ == #[trigger] prefix_of_stem(stem),
        plain_name(path@) ==> r@ == prefix_of_stem(Some(std_stem(path@))),
{
    let stem = path_file_stem(path);
    let ghost sv = match &stem {
        Some(s) => Some(s@),
        None => None,
    };
    let r = match &stem {
        Some(s) => sanitized_prefix(Some(s.as_str())),
        None => sanitized_prefix(None),
    };
    assert((sv matches Some(s) ==> contains_seq(path@, s)) && r@ == prefix_of_stem(sv));
    r
}

/// `s` as the inside of a PowerShell single-quoted string: each `'`
/// doubled.
pub open spec fn ps_quoted(s: Seq<char>) -> Seq<char>
    decreases s.len(),
{
    if s.len() == 0 {
        Seq::empty()
    } else {
        ps_quoted(s.drop_last()) + if s.last() == '\'' {
            seq!['\'', '\'']
        } else {
            seq![s.last()]
        }
    }
}

/// Appends `s` to `out` with each `'` doubled.
fn push_ps_quoted(out: &mut String, s: &str)
    ensures
        final(out)@ == old(out)@ + ps_quoted(s@),
{
    let cs = chars_of(s);
    let mut i: usize = 0;
    while i < cs.len()
        invariant
            i <= cs.len(),
            cs@ == s@,
            out@ == old(out)@ + ps_quoted(cs@.take(i as int)),
        decreases cs.len() - i,
    {
        let c = cs[i];
        out.push(c);
        if c == '\'' {
            out.push('\'');
        }
        proof {
            assert(cs@.take(i + 1).drop_last() =~= cs@.take(i as int));
        }
        i += 1;
        assert(out@ =~= old(out)@ + ps_quoted(cs@.take(i as int)));
    }
    assert(cs@.take(cs.len() as int) =~= cs@);
}

/// The PowerShell script that has Microsoft Word save the document at
/// `docx_path` as a PDF at `pdf_path` (format 17), both paths quoted.
pub open spec fn spec_word_com_script(docx_path: Seq<char>, pdf_path: Seq<char>) -> Seq<char> {
    "$ErrorActionPreference = 'Stop'\n$word = New-Object -ComObject Word.Application\n$word.Visible = $false\ntry {\n  $doc = $word.Documents.Open('"@
        + ps_quoted(docx_path) + "', $false, $true)\n  $doc.SaveAs([ref]'"@ + ps_quoted(pdf_path)
        + "', [ref]17)\n  $doc.Close($false)\n} finally {\n  $word.Quit()\n}\n"@
}

/// The PowerShell script that converts a DOCX to PDF through Word.
pub fn word_com_script(docx_path: &str, pdf_path: &str) -> (r: String)
    ensures
        r@ == spec_word_com_script(docx_path@, pdf_path@),
{
    let mut out = String::new();
    push_str(
        &mut out,
        "$ErrorActionPreference = 'Stop'\n$word = New-Object -ComObject Word.Application\n$word.Visible = $false\ntry {\n  $doc = $word.Documents.Open('",
    );
    push_ps_quoted(&mut out, docx_path);
    push_str(&mut out, "', $false, $true)\n  $doc.SaveAs([ref]'");
    push_ps_quoted(&mut out, pdf_path);
    push_str(&mut out, "', [ref]17)\n  $doc.Close($false)\n} finally {\n  $word.Quit()\n}\n");
    assert(out@ =~= spec_word_com_script(docx_path@, pdf_path@));
    out
}

} // verus!
