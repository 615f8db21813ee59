use lib::document::PdfDocument;
use lib::obj::Catalog;
use lib::pdf_manager::PdfManager;
use lib::primitives::Ref;
use lib::stream::Stream;
use lib::xref::{XRef, XRefParser};

fn sample(first_row: &str) -> (Vec<u8>, u64) {
    let mut text = String::from("%PDF-1.4\n1 0 obj\n<< /Type /Catalog /Pages 2 0 R >>\nendobj\n");
    let offset = text.len() as u64;
    text.push_str("xref\n0 3\n");
    text.push_str(first_row);
    text.push_str("0000000009 00000 n \n0000000000 00000 n \n");
    text.push_str("trailer\n<< /Size 3 /Root 1 0 R >>\n");
    text.push_str(&format!("startxref\n{}\n%%EOF\n", offset));
    (text.into_bytes(), offset)
}

#[test]
fn xref_parse_reads_table_and_trailer() {
    let (data, offset) = sample("0000000000 65535 f \n");
    let s = Stream::new(&data, data.len());
    let xref = XRef::parse(s, offset);
    let text = format!("{:?}", xref);
    assert!(text.contains("offset: 9"));
    assert!(text.contains("free: true"));
    assert!(text.contains("uncompressed: true"));
    assert!(xref.try_root().is_none());
}

#[test]
fn xref_first_entry_must_be_free() {
    let (data, offset) = sample("0000000000 65535 n \n");
    let s = Stream::new(&data, data.len());
    assert!(XRef::parse_checked(s, offset).is_none());
}

#[test]
fn xref_at_offset_zero_is_never_read() {
    let (data, _) = sample("0000000000 65535 f \n");
    let s = Stream::new(&data, data.len());
    assert!(XRef::parse_checked(s, 0).is_none());
}

#[test]
fn xref_parser_new() {
    let data = b"xref".to_vec();
    let s = Stream::new(&data, data.len());
    let _p = XRefParser::new(s, 4);
}

#[test]
fn xref_fetch_with_empty_cache() {
    let (data, offset) = sample("0000000000 65535 f \n");
    let s = Stream::new(&data, data.len());
    let mut xref = XRef::parse(s, offset);
    assert!(xref.fetch(Ref::new(1, 0)).is_none());
    assert!(xref.fetch(Ref::new(-1, 0)).is_none());
    let _catalog = Catalog::new(&xref);
}

#[test]
fn load_xref_from_a_file() {
    let (data, offset) = sample("0000000000 65535 f \n");
    let (startxref, xref) = PdfDocument::load_xref(&data).unwrap();
    assert_eq!(startxref, offset);
    assert!(format!("{:?}", xref).contains("offset: 9"));
    let garbage = b"not a pdf".to_vec();
    assert!(PdfDocument::load_xref(&garbage).is_none());
}

#[test]
fn pdf_manager_holds_a_stream() {
    let data = vec![1u8, 2, 3];
    let _m = PdfManager::new(Stream::new(&data, data.len()));
}

#[test]
fn xref_debug_text_shows_trailer_and_entry_count() {
    let (data, offset) = sample("0000000000 65535 f \n");
    let s = Stream::new(&data, data.len());
    let xref = XRef::parse(s, offset);
    assert_eq!(
        xref.debug_text(),
        Some(String::from(
            "XRef { trailer_dict: Dict { _map: {Name(\"Size\"): Int(3), Name(\"Root\"): Ref(1, 0)}, obj_id: None }, num of entries: 3 }"
        ))
    );
}
