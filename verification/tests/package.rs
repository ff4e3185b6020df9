use std::io::{Cursor, Write};

use handwrite_sim::package::{package_parts, PackageError};
use zip::write::SimpleFileOptions;
use zip::{CompressionMethod, ZipWriter};

fn zip_of(entries: &[(&str, &str)]) -> Vec<u8> {
    let mut w = ZipWriter::new(Cursor::new(Vec::new()));
    let opts = SimpleFileOptions::default().compression_method(CompressionMethod::Stored);
    for (name, text) in entries {
        w.start_file(*name, opts).unwrap();
        w.write_all(text.as_bytes()).unwrap();
    }
    w.finish().unwrap().into_inner()
}

#[test]
fn package_parts_reads_body_and_styles() {
    let bytes = zip_of(&[("word/document.xml", "<w:document/>"), ("word/styles.xml", "<w:styles/>")]);
    let (body, styles) = package_parts(&bytes).unwrap();
    assert_eq!(body, "<w:document/>");
    assert_eq!(styles.as_deref(), Some("<w:styles/>"));
}

#[test]
fn package_without_styles_has_none() {
    let bytes = zip_of(&[("word/document.xml", "<w:document/>")]);
    let (body, styles) = package_parts(&bytes).unwrap();
    assert_eq!(body, "<w:document/>");
    assert!(styles.is_none());
}

#[test]
fn package_without_body_is_refused() {
    let bytes = zip_of(&[("word/styles.xml", "<w:styles/>")]);
    match package_parts(&bytes) {
        Err(PackageError::Body(m)) => assert!(m.starts_with("docx 缺少 word/document.xml：")),
        other => panic!("unexpected {other:?}"),
    }
}

#[test]
fn bytes_that_are_no_archive_are_refused() {
    assert!(matches!(package_parts(b"not a zip"), Err(PackageError::NotAnArchive(_))));
}
