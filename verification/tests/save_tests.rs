use pdf_writer::{
    ContentsMap, CountingWrite, Dictionary, Document, Object, Stream, StringFormat, Writer, Xref,
    XrefEntry,
};

#[test]
fn scenario_empty_document() {
    // empty object table, max_id 0: one head-only subsection, Size 1, and
    // the table starts right after the 9-byte header
    let mut doc = Document::with_version(b"1.5".to_vec());
    let mut out: Vec<u8> = Vec::new();
    doc.save_to(&mut out);
    let expected = b"%PDF-1.5\n\
xref\n0 1\n0000000000 65535 f \n\
trailer\n<</Size 1>>\n\
startxref\n9\n%%EOF"
        .to_vec();
    assert_eq!(out, expected);
}

#[test]
fn scenario_two_subsections() {
    // present ids {1,2,3,9}: the head joins the run 1..3 as "0 4", and 9
    // stands alone as "9 1"
    let mut xref = Xref::new(10);
    xref.insert(1, XrefEntry::Normal { offset: 10, generation: 0 });
    xref.insert(2, XrefEntry::Normal { offset: 20, generation: 0 });
    xref.insert(3, XrefEntry::Normal { offset: 30, generation: 0 });
    xref.insert(9, XrefEntry::Normal { offset: 40, generation: 0 });
    let mut w = CountingWrite::new();
    Writer::write_xref(&mut w, &xref);
    let expected = b"xref\n\
0 4\n\
0000000000 65535 f \n\
0000000010 00000 n \n\
0000000020 00000 n \n\
0000000030 00000 n \n\
9 1\n\
0000000040 00000 n \n"
        .to_vec();
    assert_eq!(w.inner, expected);
}

#[test]
fn xref_insert_sorts_and_replaces() {
    let mut xref = Xref::new(5);
    xref.insert(3, XrefEntry::Normal { offset: 1, generation: 0 });
    xref.insert(1, XrefEntry::Normal { offset: 2, generation: 0 });
    xref.insert(3, XrefEntry::Normal { offset: 7, generation: 1 });
    let mut w = CountingWrite::new();
    Writer::write_xref(&mut w, &xref);
    let expected = b"xref\n\
0 2\n\
0000000000 65535 f \n\
0000000002 00000 n \n\
3 1\n\
0000000007 00001 n \n"
        .to_vec();
    assert_eq!(w.inner, expected);
}

#[test]
fn xref_stream_records_and_indices() {
    let mut xref = Xref::new(4);
    xref.insert(1, XrefEntry::Normal { offset: 10, generation: 0 });
    xref.insert(2, XrefEntry::Compressed { container: 5, index: 3 });
    let (data, indices) = Writer::write_xref_stream(&xref);
    let expected: Vec<u8> = vec![
        0, 0, 0, 0, 0, 255, 255, // synthetic free head
        1, 0, 0, 0, 10, 0, 0, // normal entry, offset 10, generation 0
        2, 0, 0, 0, 5, 0, 3, // compressed entry, container 5, index 3
    ];
    assert_eq!(data, expected);
    assert_eq!(indices, vec![(0, 3)]);
}

#[test]
fn save_skips_self_managed_objects() {
    // an object whose Type is ObjStm is left to other subsystems
    let mut doc = Document::with_version(b"1.5".to_vec());
    let mut objstm = Dictionary::new();
    objstm.set(b"Type", Object::Name(b"ObjStm".to_vec()));
    doc.push_object((1, 0), Object::Dictionary(objstm));
    doc.push_object((2, 0), Object::Null);
    let mut out: Vec<u8> = Vec::new();
    doc.save_to(&mut out);
    let expected = b"%PDF-1.5\n\
2 0 obj null endobj\n\
xref\n\
0 1\n0000000000 65535 f \n\
2 1\n0000000009 00000 n \n\
trailer\n<</Size 3>>\n\
startxref\n29\n%%EOF"
        .to_vec();
    assert_eq!(out, expected);
}

#[test]
fn save_document() {
    let mut doc = Document::with_version(b"1.5".to_vec());
    doc.push_object((1, 0), Object::Null);
    doc.push_object((2, 0), Object::Boolean(true));
    doc.push_object((3, 0), Object::Integer(3));
    doc.push_object((4, 0), Object::Real(b"0.5".to_vec()));
    doc.push_object(
        (5, 0),
        Object::String("text((\r)".as_bytes().to_vec(), StringFormat::Literal),
    );
    doc.push_object(
        (6, 0),
        Object::String("text((\r)".as_bytes().to_vec(), StringFormat::Hexadecimal),
    );
    doc.push_object((7, 0), Object::Name(b"name \t".to_vec()));
    doc.push_object((8, 0), Object::Reference((1, 0)));
    doc.push_object(
        (9, 2),
        Object::Array(vec![Object::Integer(1), Object::Integer(2), Object::Integer(3)]),
    );
    doc.push_object(
        (11, 0),
        Object::Stream(Stream { dict: Dictionary::new(), content: vec![0x41, 0x42, 0x43] }),
    );
    let mut dict = Dictionary::new();
    dict.set(b"A", Object::Null);
    dict.set(b"B", Object::Boolean(false));
    dict.set(b"C", Object::Name(b"name".to_vec()));
    doc.push_object((12, 0), Object::Dictionary(dict));
    assert_eq!(doc.max_id, 12);

    let mut out: Vec<u8> = Vec::new();
    doc.save_to(&mut out);
    assert!(out.starts_with(b"%PDF-1.5\n"));
    assert!(out.ends_with(b"%%EOF"));
    let text = String::from_utf8_lossy(&out).into_owned();
    assert!(text.contains("9 2 obj[1 2 3]endobj\n"));
    assert!(text.contains("11 0 obj<<>>stream\nABCendstream endobj\n"));
    assert!(text.contains("xref\n0 10\n"));
    assert!(text.contains("11 2\n"));
    assert!(text.contains("/Size 13"));
}

#[test]
fn contents_span_re_slices_to_value() {
    // the recorded span of a Contents value slices back to exactly the
    // value's own serialization
    let mut dict = Dictionary::new();
    dict.set(b"A", Object::Null);
    dict.set(b"Contents", Object::Integer(42));
    let mut w = CountingWrite::new();
    let cm = Writer::write_object(
        &mut w,
        &Object::Dictionary(dict),
        Some((5, 0)),
        Some(ContentsMap::new()),
    );
    let (start, end) = cm.unwrap().get((5, 0)).unwrap();
    assert_eq!(&w.inner[start as usize..end as usize], b"42");
}

#[test]
fn contents_span_outer_overrides_nested() {
    // a Contents key records after descending into its value, so the outer
    // record wins over one made inside that value
    let mut inner = Dictionary::new();
    inner.set(b"Contents", Object::Name(b"n".to_vec()));
    let mut outer = Dictionary::new();
    outer.set(b"Contents", Object::Dictionary(inner));
    let mut w = CountingWrite::new();
    let cm = Writer::write_object(
        &mut w,
        &Object::Dictionary(outer),
        Some((7, 3)),
        Some(ContentsMap::new()),
    );
    let (start, end) = cm.unwrap().get((7, 3)).unwrap();
    assert_eq!(&w.inner[start as usize..end as usize], b"<</Contents/n>>");
}

#[test]
fn contents_span_found_at_depth() {
    // a Contents key in a nested dictionary inside an array is recorded too
    let mut inner = Dictionary::new();
    inner.set(b"Contents", Object::Integer(7));
    let arr = Object::Array(vec![Object::Integer(1), Object::Dictionary(inner)]);
    let mut w = CountingWrite::new();
    let cm = Writer::write_object(&mut w, &arr, Some((2, 0)), Some(ContentsMap::new()));
    let (start, end) = cm.unwrap().get((2, 0)).unwrap();
    assert_eq!(&w.inner[start as usize..end as usize], b"7");
}

#[test]
fn no_record_without_contents_key() {
    let mut dict = Dictionary::new();
    dict.set(b"A", Object::Integer(1));
    let mut w = CountingWrite::new();
    let cm = Writer::write_object(
        &mut w,
        &Object::Dictionary(dict),
        Some((9, 0)),
        Some(ContentsMap::new()),
    );
    assert!(cm.unwrap().get((9, 0)).is_none());
}

#[test]
fn trailer_size_replaced_in_place() {
    let mut doc = Document::with_version(b"1.4".to_vec());
    doc.trailer.set(b"Size", Object::Integer(99));
    doc.trailer.set(b"Root", Object::Reference((1, 0)));
    let mut out: Vec<u8> = Vec::new();
    doc.save_to(&mut out);
    let text = String::from_utf8_lossy(&out).into_owned();
    assert!(text.contains("trailer\n<</Size 1/Root 1 0 R>>"));
}

#[test]
fn classic_table_free_entry_emits_f_line() {
    // an explicitly free slot is counted and written as an f line with
    // offset 0 and generation 65535
    let mut xref = Xref::new(4);
    xref.insert(1, XrefEntry::Normal { offset: 10, generation: 0 });
    xref.insert(2, XrefEntry::Free);
    xref.insert(3, XrefEntry::Normal { offset: 30, generation: 0 });
    let mut w = CountingWrite::new();
    Writer::write_xref(&mut w, &xref);
    let expected = b"xref\n\
0 4\n\
0000000000 65535 f \n\
0000000010 00000 n \n\
0000000000 65535 f \n\
0000000030 00000 n \n"
        .to_vec();
    assert_eq!(w.inner, expected);
}

#[test]
fn stream_free_entry_emits_type0_record() {
    // every counted slot emits one 7-byte record, so the data length is
    // 7 times the sum of the subsection counts
    let mut xref = Xref::new(2);
    xref.insert(1, XrefEntry::Free);
    let (data, indices) = Writer::write_xref_stream(&xref);
    let expected: Vec<u8> = vec![
        0, 0, 0, 0, 0, 255, 255, // synthetic free head
        0, 0, 0, 0, 0, 255, 255, // explicitly free slot
    ];
    assert_eq!(data, expected);
    assert_eq!(indices, vec![(0, 2)]);
    let total: i64 = indices.iter().map(|p| p.1).sum();
    assert_eq!(data.len() as i64, 7 * total);
}

#[test]
fn classic_table_compressed_entry_shown_as_free() {
    // a compressed entry has no in-file offset: the classic table counts it
    // and shows it as free
    let mut xref = Xref::new(3);
    xref.insert(1, XrefEntry::Compressed { container: 9, index: 4 });
    let mut w = CountingWrite::new();
    Writer::write_xref(&mut w, &xref);
    let expected = b"xref\n0 2\n0000000000 65535 f \n0000000000 65535 f \n".to_vec();
    assert_eq!(w.inner, expected);
}
