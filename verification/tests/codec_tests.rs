use wasm_wizard::codec::{decode, encode};
use wasm_wizard::leb128::{read_uleb128, write_uleb128, LebError};
use wasm_wizard::module::{Module, ParseError, ParseErrorReason, Section, SectionKind};

const HEADER: [u8; 8] = [0x00, 0x61, 0x73, 0x6d, 0x01, 0x00, 0x00, 0x00];

#[test]
fn leb128_reads_a_multi_byte_value() {
    assert_eq!(read_uleb128(&[0xE5, 0x8E, 0x26], 0), Ok((624485, 3)));
}

#[test]
fn leb128_writes_the_minimal_encoding() {
    let mut out = Vec::new();
    write_uleb128(&mut out, 624485);
    assert_eq!(out, vec![0xE5, 0x8E, 0x26]);
    let mut zero = Vec::new();
    write_uleb128(&mut zero, 0);
    assert_eq!(zero, vec![0x00]);
    let mut max = Vec::new();
    write_uleb128(&mut max, u64::MAX);
    assert_eq!(max, vec![0xFF, 0xFF, 0xFF, 0xFF, 0xFF, 0xFF, 0xFF, 0xFF, 0xFF, 0x01]);
}

#[test]
fn leb128_accepts_padded_encodings() {
    assert_eq!(read_uleb128(&[0x80, 0x00], 0), Ok((0, 2)));
    assert_eq!(read_uleb128(&[0x83, 0x80, 0x80, 0x00], 0), Ok((3, 4)));
}

#[test]
fn leb128_rejects_truncation_and_overflow() {
    assert_eq!(read_uleb128(&[], 0), Err(LebError::Truncated));
    assert_eq!(read_uleb128(&[0x80, 0x80], 0), Err(LebError::Truncated));
    let wide = [0xFF, 0xFF, 0xFF, 0xFF, 0xFF, 0xFF, 0xFF, 0xFF, 0xFF, 0x02];
    assert_eq!(read_uleb128(&wide, 0), Err(LebError::Oversized));
    let long = [0x80, 0x80, 0x80, 0x80, 0x80, 0x80, 0x80, 0x80, 0x80, 0x80, 0x00];
    assert_eq!(read_uleb128(&long, 0), Err(LebError::Oversized));
}

#[test]
fn decode_rejects_a_bad_header() {
    assert_eq!(
        decode(&[0x00, 0x61, 0x73]),
        Err(ParseError { offset: 0, reason: ParseErrorReason::MalformedHeader })
    );
    assert_eq!(
        decode(&[0x00, 0x61, 0x73, 0x6d, 0x02, 0x00, 0x00, 0x00]),
        Err(ParseError { offset: 4, reason: ParseErrorReason::MalformedHeader })
    );
}

#[test]
fn decode_then_encode_reproduces_the_bytes() {
    let mut bytes = HEADER.to_vec();
    bytes.extend_from_slice(&[0x01, 0x04, 0x01, 0x60, 0x00, 0x00]);
    bytes.extend_from_slice(&[0x00, 0x06, 0x04, b'n', b'a', b'm', b'e', 0x2a]);
    bytes.extend_from_slice(&[0x0c, 0x01, 0x00]);
    let module = decode(&bytes).unwrap();
    assert_eq!(
        module,
        Module {
            sections: vec![
                Section::Standard { kind: SectionKind::Type, payload: vec![0x01, 0x60, 0x00, 0x00] },
                Section::Custom { name: b"name".to_vec(), data: vec![0x2a] },
                Section::Unknown { id: 0x0c, payload: vec![0x00] },
            ]
        }
    );
    assert_eq!(encode(&module), bytes);
}

#[test]
fn decode_reports_where_a_length_goes_wrong() {
    let mut truncated = HEADER.to_vec();
    truncated.push(0x01);
    assert_eq!(
        decode(&truncated),
        Err(ParseError { offset: 9, reason: ParseErrorReason::TruncatedLength })
    );
    let mut cut = HEADER.to_vec();
    cut.extend_from_slice(&[0x01, 0x80, 0x80]);
    assert_eq!(decode(&cut), Err(ParseError { offset: 9, reason: ParseErrorReason::TruncatedLength }));
    let mut overrun = HEADER.to_vec();
    overrun.extend_from_slice(&[0x0a, 0x03, 0x00, 0x00]);
    assert_eq!(
        decode(&overrun),
        Err(ParseError { offset: 9, reason: ParseErrorReason::LengthOverrun })
    );
    let mut oversized = HEADER.to_vec();
    oversized.extend_from_slice(&[0x01, 0xff, 0xff, 0xff, 0xff, 0xff, 0xff, 0xff, 0xff, 0xff, 0x02]);
    assert_eq!(
        decode(&oversized),
        Err(ParseError { offset: 9, reason: ParseErrorReason::OversizedLeb })
    );
    let mut second = HEADER.to_vec();
    second.extend_from_slice(&[0x01, 0x01, 0x00, 0x03, 0x05, 0x00]);
    assert_eq!(
        decode(&second),
        Err(ParseError { offset: 12, reason: ParseErrorReason::LengthOverrun })
    );
}

#[test]
fn decode_reads_the_name_of_a_custom_section() {
    let mut bytes = HEADER.to_vec();
    bytes.extend_from_slice(&[0x00, 0x01, 0x00]);
    assert_eq!(
        decode(&bytes),
        Ok(Module { sections: vec![Section::Custom { name: vec![], data: vec![] }] })
    );
    let mut unnamed = HEADER.to_vec();
    unnamed.extend_from_slice(&[0x00, 0x00]);
    assert_eq!(
        decode(&unnamed),
        Err(ParseError { offset: 10, reason: ParseErrorReason::TruncatedLength })
    );
    let mut long_name = HEADER.to_vec();
    long_name.extend_from_slice(&[0x00, 0x03, 0x05, b'a', b'b']);
    assert_eq!(
        decode(&long_name),
        Err(ParseError { offset: 10, reason: ParseErrorReason::LengthOverrun })
    );
    let mut not_text = HEADER.to_vec();
    not_text.extend_from_slice(&[0x00, 0x04, 0x02, 0xff, 0xfe, 0x07]);
    let module = decode(&not_text).unwrap();
    assert_eq!(module.sections, vec![Section::Custom { name: vec![0xff, 0xfe], data: vec![0x07] }]);
    assert_eq!(encode(&module), not_text);
}

#[test]
fn decoding_is_stable_under_encoding() {
    // Every length is padded here; the encoder writes them in minimal form.
    let mut padded = HEADER.to_vec();
    padded.extend_from_slice(&[0x00, 0x87, 0x00, 0x83, 0x80, 0x00, b'a', b'b', b'c', 0x01]);
    padded.extend_from_slice(&[0x0b, 0x80, 0x00]);
    padded.extend_from_slice(&[0xff, 0x82, 0x80, 0x80, 0x00, 0x05, 0x06]);
    let module = decode(&padded).unwrap();
    assert_eq!(
        module,
        Module {
            sections: vec![
                Section::Custom { name: b"abc".to_vec(), data: vec![0x01] },
                Section::Standard { kind: SectionKind::Data, payload: vec![] },
                Section::Unknown { id: 0xff, payload: vec![0x05, 0x06] },
            ]
        }
    );
    let canonical = encode(&module);
    assert_eq!(
        canonical[8..].to_vec(),
        vec![0x00, 0x05, 0x03, b'a', b'b', b'c', 0x01, 0x0b, 0x00, 0xff, 0x02, 0x05, 0x06]
    );
    assert_eq!(decode(&canonical), Ok(module.clone()));
    assert_eq!(encode(&decode(&canonical).unwrap()), canonical);
}

#[test]
fn an_empty_module_is_its_header() {
    assert_eq!(decode(&HEADER), Ok(Module::new()));
    assert_eq!(encode(&Module::new()), HEADER.to_vec());
    assert_eq!(Module::from_sections(Vec::new()).len(), 0);
}

#[test]
fn sections_know_their_identifiers() {
    assert_eq!(SectionKind::Data.id(), 11);
    assert_eq!(SectionKind::from_id(7), Some(SectionKind::Export));
    assert_eq!(SectionKind::from_id(0), None);
    assert_eq!(SectionKind::from_id(12), None);
    let section = Section::custom(b"x".to_vec(), vec![1]);
    assert_eq!(section.id(), 0);
    assert_eq!(section.duplicate(), section);
    assert_eq!(Section::standard(SectionKind::Code, vec![]).id(), 10);
    assert_eq!(Section::Unknown { id: 77, payload: vec![] }.id(), 77);
}
