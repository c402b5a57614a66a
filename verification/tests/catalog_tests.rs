use wasm_wizard::catalog::{
    custom_section, encode_exports, encode_imports, exports_of, find_section,
    has_unique_kinds, imports_of,
    parse_exports, parse_imports, section_count, section_payload, ExportEntry, ExternKind,
    ImportEntry,
};
use wasm_wizard::composer::{compose, LinkError};
use wasm_wizard::config::default_config;
use wasm_wizard::layout::Refusal;
use wasm_wizard::module::{Module, ParseError, ParseErrorReason, Section, SectionKind};
use wasm_wizard::rewrite::{rewrite_instruction, write_sleb, IndexMap, SpaceMap};

fn standard(kind: SectionKind, payload: &[u8]) -> Section {
    Section::Standard { kind, payload: payload.to_vec() }
}

fn error(offset: usize, reason: ParseErrorReason) -> ParseError {
    ParseError { offset, reason }
}

fn import(module: &str, name: &str, kind: ExternKind, descriptor: &[u8]) -> ImportEntry {
    ImportEntry {
        module: module.as_bytes().to_vec(),
        name: name.as_bytes().to_vec(),
        kind,
        descriptor: descriptor.to_vec(),
    }
}

#[test]
fn imports_of_every_kind_are_read() {
    let payload = [
        0x05, // five entries
        0x01, b'a', 0x01, b'f', 0x00, 0x83, 0x00, // function, type 3 with a padded index
        0x01, b'a', 0x01, b't', 0x01, 0x70, 0x01, 0x01, 0x10, // table with a maximum
        0x01, b'a', 0x01, b'm', 0x02, 0x00, 0x01, // memory without a maximum
        0x01, b'a', 0x01, b'g', 0x03, 0x7f, 0x01, // mutable global
        0x00, 0x00, 0x04, 0x00, 0x02, // tag with empty names
    ];
    let entries = parse_imports(&payload).unwrap();
    assert_eq!(
        entries,
        vec![
            import("a", "f", ExternKind::Function, &[0x83, 0x00]),
            import("a", "t", ExternKind::Table, &[0x70, 0x01, 0x01, 0x10]),
            import("a", "m", ExternKind::Memory, &[0x00, 0x01]),
            import("a", "g", ExternKind::Global, &[0x7f, 0x01]),
            import("", "", ExternKind::Tag, &[0x00, 0x02]),
        ]
    );
    assert_eq!(encode_imports(&entries), payload.to_vec());
    assert_eq!(parse_imports(&[0x00]), Ok(Vec::new()));
}

#[test]
fn exports_are_read_and_written() {
    let payload = [0x02, 0x03, b'm', b'e', b'm', 0x02, 0x00, 0x01, b'f', 0x00, 0xac, 0x02];
    let entries = parse_exports(&payload).unwrap();
    assert_eq!(
        entries,
        vec![
            ExportEntry { name: b"mem".to_vec(), kind: ExternKind::Memory, index: 0 },
            ExportEntry { name: b"f".to_vec(), kind: ExternKind::Function, index: 300 },
        ]
    );
    assert_eq!(encode_exports(&entries), payload.to_vec());
    // A padded count and a padded index are read, and written in minimal form.
    let padded = [0x81, 0x00, 0x01, b'f', 0x00, 0x85, 0x80, 0x00];
    let entries = parse_exports(&padded).unwrap();
    assert_eq!(entries[0].index, 5);
    assert_eq!(encode_exports(&entries), vec![0x01, 0x01, b'f', 0x00, 0x05]);
}

#[test]
fn malformed_entries_are_refused_with_their_offset() {
    assert_eq!(parse_imports(&[]), Err(error(0, ParseErrorReason::TruncatedLength)));
    assert_eq!(parse_imports(&[0x01]), Err(error(1, ParseErrorReason::TruncatedLength)));
    assert_eq!(
        parse_imports(&[0x01, 0x02, b'a']),
        Err(error(1, ParseErrorReason::LengthOverrun))
    );
    assert_eq!(
        parse_imports(&[0x01, 0x01, b'a', 0x01, b'f']),
        Err(error(5, ParseErrorReason::UnexpectedEnd))
    );
    assert_eq!(
        parse_imports(&[0x01, 0x01, b'a', 0x01, b'f', 0x05, 0x00]),
        Err(error(5, ParseErrorReason::InvalidEntry))
    );
    assert_eq!(
        parse_imports(&[0x01, 0x01, b'a', 0x01, b'g', 0x03, 0x7f, 0x02]),
        Err(error(7, ParseErrorReason::InvalidEntry))
    );
    assert_eq!(
        parse_imports(&[0x01, 0x01, b'a', 0x01, b't', 0x01, 0x64, 0x00, 0x00, 0x01]),
        Err(error(6, ParseErrorReason::Unsupported))
    );
    assert_eq!(
        parse_imports(&[0x01, 0x01, b'a', 0x01, b'm', 0x02, 0x08, 0x01]),
        Err(error(6, ParseErrorReason::Unsupported))
    );
    assert_eq!(
        parse_imports(&[0x00, 0x00]),
        Err(error(1, ParseErrorReason::TrailingBytes))
    );
    assert_eq!(
        parse_exports(&[0x01, 0x01, b'f', 0x00, 0xff, 0xff, 0xff, 0xff, 0x10]),
        Err(error(4, ParseErrorReason::OutOfRange))
    );
    assert_eq!(
        parse_exports(&[0x01, 0x01, b'f', 0x00, 0xff, 0xff, 0xff, 0xff, 0xff, 0xff, 0xff, 0xff, 0xff, 0x7f]),
        Err(error(4, ParseErrorReason::OversizedLeb))
    );
    assert_eq!(
        parse_exports(&[0x02, 0x01, b'f', 0x00, 0x00]),
        Err(error(5, ParseErrorReason::TruncatedLength))
    );
}

#[test]
fn the_catalog_looks_sections_up() {
    let module = Module {
        sections: vec![
            Section::Custom { name: b"a".to_vec(), data: vec![1] },
            standard(SectionKind::Export, &[0x01, 0x01, b'f', 0x00, 0x00]),
            Section::Custom { name: b"b".to_vec(), data: vec![2] },
            Section::Custom { name: b"a".to_vec(), data: vec![3] },
            standard(SectionKind::Function, &[0x05]),
        ],
    };
    assert_eq!(find_section(&module, SectionKind::Export), Some(1));
    assert_eq!(find_section(&module, SectionKind::Function), Some(4));
    assert_eq!(find_section(&module, SectionKind::Import), None);
    assert_eq!(section_payload(&module, SectionKind::Function), Some(&vec![0x05]));
    assert_eq!(section_payload(&module, SectionKind::Code), None);
    assert_eq!(custom_section(&module, b"a"), Some(&vec![1]));
    assert_eq!(custom_section(&module, b"b"), Some(&vec![2]));
    assert_eq!(custom_section(&module, b"c"), None);
    assert_eq!(section_count(&module, SectionKind::Function), Ok(5));
    assert_eq!(section_count(&module, SectionKind::Type), Ok(0));
    assert_eq!(imports_of(&module), Ok(Vec::new()));
    assert_eq!(exports_of(&module).unwrap().len(), 1);
    assert!(has_unique_kinds(&module));
    let mut repeated = module.clone();
    repeated.sections.push(standard(SectionKind::Export, &[0x00]));
    assert!(!has_unique_kinds(&repeated));
    assert!(has_unique_kinds(&Module { sections: Vec::new() }));
}

#[test]
fn block_types_are_written_as_signed_integers() {
    for (value, expected) in [
        (0u32, vec![0x00]),
        (63, vec![0x3f]),
        (64, vec![0xc0, 0x00]),
        (127, vec![0xff, 0x00]),
        (128, vec![0x80, 0x01]),
        (8191, vec![0xff, 0x3f]),
        (8192, vec![0x80, 0xc0, 0x00]),
        (u32::MAX, vec![0xff, 0xff, 0xff, 0xff, 0x0f]),
    ] {
        let mut out = Vec::new();
        write_sleb(&mut out, value);
        assert_eq!(out, expected, "for {}", value);
    }
}

#[test]
fn instructions_are_rewritten_one_by_one() {
    let own = |first_defined: u32, defined: u32| SpaceMap {
        imports: Vec::new(),
        first_defined,
        defined,
    };
    let map = IndexMap {
        functions: SpaceMap { imports: vec![7, 9], first_defined: 100, defined: 3 },
        tables: own(0, 1),
        memories: own(0, 1),
        globals: own(0, 0),
        types: own(60, 5),
        elements: own(0, 0),
        data: own(0, 1),
    };
    let moved = IndexMap {
        functions: own(0, 1),
        tables: own(2, 2),
        memories: SpaceMap { imports: vec![0], first_defined: 3, defined: 1 },
        globals: SpaceMap { imports: vec![5], first_defined: 9, defined: 2 },
        types: own(0, 1),
        elements: own(4, 2),
        data: own(6, 2),
    };
    let shift = |bytes: &[u8]| {
        let mut out = Vec::new();
        rewrite_instruction(&mut out, bytes, 0, &moved).map(|next| (out, next))
    };
    // globals, tables and memories move like functions
    assert_eq!(shift(&[0x23, 0x00]), Ok((vec![0x23, 0x05], 2)));
    assert_eq!(shift(&[0x24, 0x02]), Ok((vec![0x24, 0x0a], 2)));
    assert_eq!(shift(&[0x24, 0x03]), Err(error(1, ParseErrorReason::OutOfRange)));
    assert_eq!(shift(&[0x25, 0x01]), Ok((vec![0x25, 0x03], 2)));
    assert_eq!(shift(&[0x11, 0x00, 0x00]), Ok((vec![0x11, 0x00, 0x02], 3)));
    assert_eq!(shift(&[0x28, 0x02, 0x10]), Ok((vec![0x28, 0x02, 0x10], 3)));
    assert_eq!(shift(&[0x28, 0x42, 0x01, 0x10]), Ok((vec![0x28, 0x42, 0x03, 0x10], 4)));
    assert_eq!(shift(&[0x36, 0x43, 0x00, 0x10]), Ok((vec![0x36, 0x03, 0x10], 4)));
    assert_eq!(shift(&[0x28, 0x42, 0x02, 0x10]), Err(error(1, ParseErrorReason::OutOfRange)));
    assert_eq!(shift(&[0x3f, 0x01]), Ok((vec![0x3f, 0x03], 2)));
    assert_eq!(shift(&[0x40, 0x00]), Ok((vec![0x40, 0x00], 2)));
    // bulk instructions name segments, memories and tables
    assert_eq!(shift(&[0xfc, 0x08, 0x01, 0x01]), Ok((vec![0xfc, 0x08, 0x07, 0x03], 4)));
    assert_eq!(shift(&[0xfc, 0x09, 0x00]), Ok((vec![0xfc, 0x09, 0x06], 3)));
    assert_eq!(shift(&[0xfc, 0x0a, 0x01, 0x00]), Ok((vec![0xfc, 0x0a, 0x03, 0x00], 4)));
    assert_eq!(shift(&[0xfc, 0x0c, 0x01, 0x00]), Ok((vec![0xfc, 0x0c, 0x05, 0x02], 4)));
    assert_eq!(shift(&[0xfc, 0x0d, 0x00]), Ok((vec![0xfc, 0x0d, 0x04], 3)));
    assert_eq!(shift(&[0xfc, 0x0e, 0x00, 0x01]), Ok((vec![0xfc, 0x0e, 0x02, 0x03], 4)));
    assert_eq!(shift(&[0xfc, 0x10, 0x01]), Ok((vec![0xfc, 0x10, 0x03], 3)));
    assert_eq!(shift(&[0xfc, 0x00, 0x0b]), Ok((vec![0xfc, 0x00], 2)));
    assert_eq!(shift(&[0xfc, 0x30]), Err(error(2, ParseErrorReason::Unsupported)));
    // vector and atomic instructions with a memory argument
    assert_eq!(shift(&[0xfd, 0x00, 0x44, 0x01, 0x08]), Ok((vec![0xfd, 0x00, 0x44, 0x03, 0x08], 5)));
    assert_eq!(
        shift(&[0xfd, 0x54, 0x40, 0x01, 0x00, 0x07]),
        Ok((vec![0xfd, 0x54, 0x40, 0x03, 0x00, 0x07], 6))
    );
    assert_eq!(shift(&[0xfd, 0x0f, 0x0b]), Ok((vec![0xfd, 0x0f], 2)));
    assert_eq!(shift(&[0xfe, 0x10, 0x42, 0x01, 0x00]), Ok((vec![0xfe, 0x10, 0x42, 0x03, 0x00], 5)));
    assert_eq!(shift(&[0xfe, 0x4f, 0x00, 0x01]), Ok((vec![0xfe, 0x4f, 0x00, 0x09], 4)));
    assert_eq!(shift(&[0xfe, 0x58, 0x00, 0x00]), Ok((vec![0xfe, 0x58, 0x00, 0x02], 4)));
    let rewrite = |bytes: &[u8]| {
        let mut out = Vec::new();
        rewrite_instruction(&mut out, bytes, 0, &map).map(|next| (out, next))
    };
    // call of an import, of a defined function, and of a function that is not there
    assert_eq!(rewrite(&[0x10, 0x01, 0xff]), Ok((vec![0x10, 0x09], 2)));
    assert_eq!(rewrite(&[0x10, 0x04]), Ok((vec![0x10, 0x66], 2)));
    assert_eq!(rewrite(&[0x10, 0x05]), Err(error(1, ParseErrorReason::OutOfRange)));
    assert_eq!(rewrite(&[0xd2, 0x82, 0x00]), Ok((vec![0xd2, 0x64], 3)));
    // call_indirect: the type moves, the table stays
    assert_eq!(rewrite(&[0x11, 0x04, 0x00]), Ok((vec![0x11, 0x40, 0x00], 3)));
    assert_eq!(rewrite(&[0x11, 0x05, 0x00]), Err(error(1, ParseErrorReason::OutOfRange)));
    // block types: empty, a value type, a type index
    assert_eq!(rewrite(&[0x02, 0x40]), Ok((vec![0x02, 0x40], 2)));
    assert_eq!(rewrite(&[0x03, 0x7f]), Ok((vec![0x03, 0x7f], 2)));
    assert_eq!(rewrite(&[0x04, 0x03]), Ok((vec![0x04, 0x3f], 2)));
    assert_eq!(rewrite(&[0x04, 0x04]), Ok((vec![0x04, 0xc0, 0x00], 2)));
    assert_eq!(rewrite(&[0x02, 0x64, 0x00]), Err(error(1, ParseErrorReason::Unsupported)));
    // plain instructions are copied with their immediates
    assert_eq!(rewrite(&[0x41, 0xff, 0x00, 0x0b]), Ok((vec![0x41, 0xff, 0x00], 3)));
    assert_eq!(rewrite(&[0x05, 0x0b]), Ok((vec![0x05], 1)));
    assert_eq!(rewrite(&[0x28, 0x02, 0x10]), Ok((vec![0x28, 0x02, 0x10], 3)));
    assert_eq!(rewrite(&[0x0e, 0x02, 0x00, 0x01, 0x02, 0x0b]), Ok((vec![0x0e, 0x02, 0x00, 0x01, 0x02], 5)));
    assert_eq!(rewrite(&[0x44, 1, 2, 3, 4, 5, 6, 7, 8, 0x0b]), Ok((vec![0x44, 1, 2, 3, 4, 5, 6, 7, 8], 9)));
    assert_eq!(rewrite(&[0xd0, 0x70]), Ok((vec![0xd0, 0x70], 2)));
    assert_eq!(rewrite(&[0xd0, 0x03]), Err(error(1, ParseErrorReason::Unsupported)));
    // atomic instructions on memories are copied, those that name types are refused
    assert_eq!(rewrite(&[0xfe, 0x03, 0x00, 0x0b]), Ok((vec![0xfe, 0x03, 0x00], 3)));
    assert_eq!(rewrite(&[0xfe, 0x10, 0x02, 0x00]), Ok((vec![0xfe, 0x10, 0x02, 0x00], 4)));
    assert_eq!(rewrite(&[0xfe, 0x5c, 0x00, 0x00, 0x00]), Err(error(2, ParseErrorReason::Unsupported)));
    assert_eq!(rewrite(&[0xfc, 0x09, 0x00]), Ok((vec![0xfc, 0x09, 0x00], 3)));
    assert_eq!(rewrite(&[0xfb, 0x00, 0x00]), Err(error(0, ParseErrorReason::Unsupported)));
    // what the operator reader refuses is an invalid entry
    assert_eq!(rewrite(&[0x41]), Err(error(0, ParseErrorReason::InvalidEntry)));
    assert_eq!(rewrite(&[0x27]), Err(error(0, ParseErrorReason::Unsupported)));
    assert_eq!(rewrite(&[]), Err(error(0, ParseErrorReason::UnexpectedEnd)));
}

#[test]
fn repeated_sections_tags_and_too_many_functions_are_refused() {
    let auto = default_config(Vec::new());
    let twice = Module {
        sections: vec![standard(SectionKind::Type, &[0x00]), standard(SectionKind::Type, &[0x00])],
    };
    assert_eq!(
        compose(&vec![twice], &auto),
        Err(LinkError::Unsupported { component: 0, reason: Refusal::RepeatedSection })
    );
    let tagged = Module {
        sections: vec![standard(SectionKind::Import, &[0x01, 0x00, 0x01, b'e', 0x04, 0x00, 0x00])],
    };
    assert_eq!(
        compose(&vec![Module { sections: Vec::new() }, tagged], &auto),
        Err(LinkError::Unsupported { component: 1, reason: Refusal::TagImport })
    );
    let huge = Module {
        sections: vec![standard(SectionKind::Function, &[0xff, 0xff, 0xff, 0xff, 0x0f])],
    };
    assert_eq!(compose(&vec![huge.clone(), huge], &auto), Err(LinkError::TooManyItems));
}

#[test]
fn errors_have_messages() {
    assert_eq!(
        error(12, ParseErrorReason::TruncatedLength).message(),
        "truncated length at offset 12"
    );
    assert_eq!(error(0, ParseErrorReason::MalformedHeader).message(), "malformed header at offset 0");
    assert_eq!(LinkError::NoComponents.message(), "No components to compose");
    assert_eq!(
        LinkError::AmbiguousImport(vec![b"f".to_vec(), b"g".to_vec()]).message(),
        "ambiguous imports: f, g"
    );
    assert_eq!(
        LinkError::UnresolvedConnection(vec!["nope".to_string()]).message(),
        "unresolved connections: nope"
    );
    assert_eq!(
        LinkError::Malformed { component: 3, error: error(7, ParseErrorReason::OutOfRange) }.message(),
        "component 3 cannot be read: count or index out of range at offset 7"
    );
    assert_eq!(
        LinkError::Unsupported { component: 1, reason: Refusal::TagImport }.message(),
        "component 1 is not supported: an imported tag"
    );
    assert_eq!(LinkError::TooManyItems.message(), "too many items for one module");
}
