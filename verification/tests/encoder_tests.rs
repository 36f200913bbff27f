use pdf_writer::{Content, CountingWrite, Object, Operation, StringFormat, Writer};

fn fresh() -> CountingWrite {
    CountingWrite::new()
}

#[test]
fn name_escapes_delimiters_and_whitespace() {
    let mut w = fresh();
    Writer::write_name(&mut w, b"name \t");
    assert_eq!(w.inner, b"/name#20#09".to_vec());
}

#[test]
fn name_escapes_nonprintable_and_hash() {
    let mut w = fresh();
    Writer::write_name(&mut w, &[0x41, 0xAB, b'#', b'(', b')', 0x7F]);
    assert_eq!(w.inner, b"/A#AB#23#28#29#7F".to_vec());
}

#[test]
fn name_keeps_printable_bytes() {
    let mut w = fresh();
    Writer::write_name(&mut w, b"Type1!");
    assert_eq!(w.inner, b"/Type1!".to_vec());
}

#[test]
fn literal_string_escaping_rules() {
    // balanced pair untouched, backslash and CR escaped
    let mut w = fresh();
    Writer::write_string(&mut w, b"a(b)c\\d\re", &StringFormat::Literal);
    assert_eq!(w.inner, b"(a(b)c\\\\d\\re)".to_vec());
}

#[test]
fn literal_string_unmatched_parens() {
    // a close with no open is escaped; a trailing unmatched open is escaped
    let mut w = fresh();
    Writer::write_string(&mut w, b")x(", &StringFormat::Literal);
    assert_eq!(w.inner, b"(\\)x\\()".to_vec());
}

#[test]
fn literal_string_scenario() {
    // "text((\r)": the ")" matches the second "(", so that pair stays
    // unescaped; the first "(" is unmatched and the CR becomes "\r"
    let mut w = fresh();
    Writer::write_string(&mut w, b"text((\r)", &StringFormat::Literal);
    assert_eq!(w.inner, b"(text\\((\\r))".to_vec());
}

#[test]
fn hex_string_uppercase_pairs() {
    let mut w = fresh();
    Writer::write_string(&mut w, b"text((\r)", &StringFormat::Hexadecimal);
    assert_eq!(w.inner, b"<7465787428280D29>".to_vec());
}

#[test]
fn object_primitives() {
    let mut w = fresh();
    let _ = Writer::write_object(&mut w, &Object::Null, None, None);
    let _ = Writer::write_object(&mut w, &Object::Boolean(true), None, None);
    let _ = Writer::write_object(&mut w, &Object::Boolean(false), None, None);
    let _ = Writer::write_object(&mut w, &Object::Integer(-12), None, None);
    let _ = Writer::write_object(&mut w, &Object::Real(b"0.5".to_vec()), None, None);
    let _ = Writer::write_object(&mut w, &Object::Reference((1, 0)), None, None);
    assert_eq!(w.inner, b"nulltruefalse-120.51 0 R".to_vec());
}

#[test]
fn integer_extremes() {
    let mut w = fresh();
    let _ = Writer::write_object(&mut w, &Object::Integer(i64::MIN), None, None);
    w.write_byte(b' ');
    let _ = Writer::write_object(&mut w, &Object::Integer(i64::MAX), None, None);
    assert_eq!(w.inner, b"-9223372036854775808 9223372036854775807".to_vec());
}

#[test]
fn array_separators() {
    // separators only before non-self-delimiting elements, never before the
    // first element
    let mut w = fresh();
    let arr = Object::Array(vec![
        Object::Integer(1),
        Object::Integer(2),
        Object::Name(b"N".to_vec()),
        Object::Integer(3),
        Object::Array(vec![Object::Integer(4)]),
    ]);
    let _ = Writer::write_object(&mut w, &arr, None, None);
    assert_eq!(w.inner, b"[1 2/N 3[4]]".to_vec());
}

#[test]
fn dictionary_order_and_separators() {
    let mut w = fresh();
    let mut dict = pdf_writer::Dictionary::new();
    dict.set(b"B", Object::Integer(2));
    dict.set(b"A", Object::Null);
    dict.set(b"B", Object::Integer(7));
    let _ = Writer::write_object(&mut w, &Object::Dictionary(dict), None, None);
    // insertion order is kept and a reset key keeps its position
    assert_eq!(w.inner, b"<</B 7/A null>>".to_vec());
}

#[test]
fn stream_body_verbatim() {
    let mut w = fresh();
    let st = pdf_writer::Stream { dict: pdf_writer::Dictionary::new(), content: vec![0x41, 0x42, 0x43] };
    let _ = Writer::write_object(&mut w, &Object::Stream(st), None, None);
    assert_eq!(w.inner, b"<<>>stream\nABCendstream".to_vec());
}

#[test]
fn content_stream_encoding() {
    let ops = Content {
        operations: vec![
            Operation::new("BT", vec![]),
            Operation::new("Td", vec![Object::Integer(10), Object::Integer(20)]),
        ],
    };
    assert_eq!(ops.encode(), b"BT\n10 20 Td\n".to_vec());
}

#[test]
fn empty_name_string_array_dictionary() {
    let mut w = fresh();
    Writer::write_name(&mut w, b"");
    Writer::write_string(&mut w, b"", &StringFormat::Literal);
    Writer::write_string(&mut w, b"", &StringFormat::Hexadecimal);
    let _ = Writer::write_object(&mut w, &Object::Array(vec![]), None, None);
    let _ = Writer::write_object(
        &mut w,
        &Object::Dictionary(pdf_writer::Dictionary::new()),
        None,
        None,
    );
    assert_eq!(w.inner, b"/()<>[]<<>>".to_vec());
}

#[test]
fn literal_string_all_backslashes() {
    let mut w = fresh();
    Writer::write_string(&mut w, b"\\\\", &StringFormat::Literal);
    assert_eq!(w.inner, b"(\\\\\\\\)".to_vec());
}

#[test]
fn xref_line_widths_at_maximum() {
    let mut xref = pdf_writer::Xref::new(2);
    xref.insert(
        1,
        pdf_writer::XrefEntry::Normal { offset: u32::MAX, generation: u16::MAX },
    );
    let mut w = fresh();
    Writer::write_xref(&mut w, &xref);
    let expected = b"xref\n0 2\n0000000000 65535 f \n4294967295 65535 n \n".to_vec();
    assert_eq!(w.inner, expected);
}
