use std::io::{Cursor, Write};

use nemweb_reports::archive::{
    first_file_in_zip, get_file_from_zip, get_price_file, open_zip_archive, try_first_file_in_zip,
    try_get_file_from_zip, try_get_price_file, ArchiveError,
};
use zip::write::SimpleFileOptions;
use zip::{CompressionMethod, ZipWriter};

fn zip_of(files: &[(&str, &[u8])]) -> Vec<u8> {
    let mut w = ZipWriter::new(Cursor::new(Vec::new()));
    let opts = SimpleFileOptions::default().compression_method(CompressionMethod::Stored);
    for (name, data) in files {
        w.start_file(*name, opts).unwrap();
        w.write_all(data).unwrap();
    }
    w.finish().unwrap().into_inner()
}

#[test]
fn not_a_zip() {
    assert_eq!(open_zip_archive(b"hello".to_vec()).err(), Some(ArchiveError::NotAnArchive));
}

#[test]
fn finds_the_first_quantity_report() {
    let bytes = zip_of(&[
        ("int037b_v4_prices.csv", b"prices"),
        ("int271_v4_first.csv", b"first"),
        ("int271_v4_second.csv", b"second"),
    ]);
    let mut archive = open_zip_archive(bytes).unwrap();
    assert_eq!(get_file_from_zip(&mut archive), Some("first".to_string()));
    assert_eq!(try_get_file_from_zip(&mut archive), Ok(Some("first".to_string())));
}

#[test]
fn no_quantity_report() {
    let bytes = zip_of(&[("other.csv", b"x")]);
    let mut archive = open_zip_archive(bytes).unwrap();
    assert_eq!(try_get_file_from_zip(&mut archive), Ok(None));
    assert_eq!(get_file_from_zip(&mut archive), None);
}

#[test]
fn invalid_utf8_is_replaced() {
    let bytes = zip_of(&[("int271.csv", &[b'a', 0xff, b'b'])]);
    let mut archive = open_zip_archive(bytes).unwrap();
    assert_eq!(try_get_file_from_zip(&mut archive), Ok(Some("a\u{fffd}b".to_string())));
}

#[test]
fn all_price_reports_in_order() {
    let bytes = zip_of(&[
        ("int037b_one.csv", b"one"),
        ("int271.csv", b"q"),
        ("int037b_two.csv", b"two"),
    ]);
    let mut archive = open_zip_archive(bytes).unwrap();
    let files = get_price_file(&mut archive);
    assert_eq!(
        files,
        vec![
            ("int037b_one.csv".to_string(), "one".to_string()),
            ("int037b_two.csv".to_string(), "two".to_string()),
        ]
    );
    // the archive can be read again
    assert_eq!(try_get_price_file(&mut archive).unwrap().len(), 2);
}

#[test]
fn unsafe_names_stop_the_search() {
    let bytes = zip_of(&[("../outside.csv", b"x"), ("int271.csv", b"q")]);
    let mut archive = open_zip_archive(bytes).unwrap();
    assert_eq!(try_get_file_from_zip(&mut archive), Err(ArchiveError::UnsafeName));
    assert_eq!(try_get_price_file(&mut archive), Err(ArchiveError::UnsafeName));
}

#[test]
fn first_file() {
    let bytes = zip_of(&[("PUBLIC_PRICES.CSV", b"C,x\nI,y\n"), ("b", b"b")]);
    let mut archive = open_zip_archive(bytes).unwrap();
    assert_eq!(first_file_in_zip(&mut archive), "C,x\nI,y\n");
    assert_eq!(try_first_file_in_zip(&mut archive), Ok("C,x\nI,y\n".to_string()));
}

#[test]
fn empty_archive_has_no_first_file() {
    let bytes = zip_of(&[]);
    let mut archive = open_zip_archive(bytes).unwrap();
    assert_eq!(try_first_file_in_zip(&mut archive), Err(ArchiveError::UnreadableEntry));
    assert_eq!(try_get_price_file(&mut archive), Ok(vec![]));
}

#[test]
fn corrupt_report_bytes() {
    let mut bytes = zip_of(&[("int271.csv", b"hello world")]);
    let pos = bytes.windows(5).position(|w| w == b"hello").unwrap();
    bytes[pos] = b'j';
    let mut archive = open_zip_archive(bytes).unwrap();
    assert_eq!(try_get_file_from_zip(&mut archive), Err(ArchiveError::UnreadableContent));
}
