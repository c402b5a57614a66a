use wasm_wizard::codec::encode;
use wasm_wizard::module::{Module, ParseErrorReason, Section, SectionKind};
use wasm_wizard::text::decimal_string;
use wasm_wizard::utils::{
    format_size, get_wasm_info, is_wasm_extension, is_wasm_file, validate_component_name,
    NameError,
};

/// The text that the same size gets when it is computed in double precision.
fn float_text(bytes: u64) -> String {
    let units = ["B", "KB", "MB", "GB"];
    let mut size = bytes as f64;
    let mut unit = 0;
    while size >= 1024.0 && unit < units.len() - 1 {
        size /= 1024.0;
        unit += 1;
    }
    if unit == 0 {
        format!("{} {}", bytes, units[unit])
    } else {
        format!("{:.2} {}", size, units[unit])
    }
}

#[test]
fn format_size_gives_exact_texts() {
    assert_eq!(format_size(0), "0 B");
    assert_eq!(format_size(1023), "1023 B");
    assert_eq!(format_size(1024), "1.00 KB");
    assert_eq!(format_size(1536), "1.50 KB");
    assert_eq!(format_size(1024 * 1024 - 1), "1024.00 KB");
    assert_eq!(format_size(1024 * 1024), "1.00 MB");
    assert_eq!(format_size(5 * 1024 * 1024 + 512 * 1024), "5.50 MB");
    assert_eq!(format_size(1024 * 1024 * 1024), "1.00 GB");
    assert_eq!(format_size(1024u64 * 1024 * 1024 * 1024), "1024.00 GB");
    assert_eq!(format_size(u64::MAX), "17179869184.00 GB");
}

#[test]
fn format_size_rounds_ties_to_the_even_hundredth() {
    // 1152 / 1024 = 1.125 and 1408 / 1024 = 1.375, both exact ties.
    assert_eq!(format_size(1152), "1.12 KB");
    assert_eq!(format_size(1408), "1.38 KB");
    assert_eq!(format_size(1029), "1.00 KB");
    assert_eq!(format_size(1030), "1.01 KB");
}

#[test]
fn format_size_agrees_with_double_precision() {
    let mut samples: Vec<u64> = vec![0, 1, 999, 1023, 1024, 1025, 1152, 1408, 10239, 10240];
    for shift in 0..64 {
        let power = 1u64 << shift;
        for delta in [0u64, 1, 2, 3, 5, 127, 128, 129, 511, 512, 513, 1023, 1024, 1025, 2047, 2048] {
            samples.push(power.wrapping_add(delta));
            samples.push(power.wrapping_sub(delta));
            samples.push((power | (power >> 1)).wrapping_add(delta));
            samples.push((power | (power >> 11)).wrapping_sub(delta));
        }
    }
    let mut state: u64 = 0x9e37_79b9_7f4a_7c15;
    for _ in 0..20000 {
        state ^= state << 13;
        state ^= state >> 7;
        state ^= state << 17;
        samples.push(state);
        samples.push(state >> (state % 64));
    }
    for bytes in 1024..1024 + 4096 {
        samples.push(bytes);
    }
    for bytes in samples {
        assert_eq!(format_size(bytes), float_text(bytes), "for {} bytes", bytes);
    }
}

#[test]
fn decimal_text_of_integers() {
    assert_eq!(decimal_string(0), "0");
    assert_eq!(decimal_string(7), "7");
    assert_eq!(decimal_string(10), "10");
    assert_eq!(decimal_string(1234567890), "1234567890");
    assert_eq!(decimal_string(u64::MAX), "18446744073709551615");
}

#[test]
fn component_names_are_validated() {
    assert_eq!(validate_component_name("my-component"), Ok(()));
    assert_eq!(validate_component_name("my_component_2"), Ok(()));
    assert_eq!(validate_component_name("a"), Ok(()));
    assert_eq!(validate_component_name("_"), Ok(()));
    assert_eq!(validate_component_name("écran-é"), Ok(()));
    assert_eq!(validate_component_name("名前"), Ok(()));
    assert_eq!(validate_component_name(""), Err(NameError::Empty));
    assert_eq!(validate_component_name("my component"), Err(NameError::InvalidCharacter));
    assert_eq!(validate_component_name("a.b"), Err(NameError::InvalidCharacter));
    assert_eq!(validate_component_name("-a b-"), Err(NameError::InvalidCharacter));
    assert_eq!(validate_component_name("-abc"), Err(NameError::HyphenAtEdge));
    assert_eq!(validate_component_name("abc-"), Err(NameError::HyphenAtEdge));
    assert_eq!(validate_component_name("-"), Err(NameError::HyphenAtEdge));
}

#[test]
fn name_errors_have_messages() {
    assert_eq!(NameError::Empty.message(), "Component name cannot be empty");
    assert_eq!(
        NameError::InvalidCharacter.message(),
        "Component name can only contain alphanumeric characters, hyphens, and underscores"
    );
    assert_eq!(
        NameError::HyphenAtEdge.message(),
        "Component name cannot start or end with a hyphen"
    );
}

#[test]
fn wasm_files_are_told_by_their_extension() {
    assert!(is_wasm_file("module.wasm"));
    assert!(is_wasm_file("dir.d/module.opt.wasm"));
    assert!(!is_wasm_file("module.wat"));
    assert!(!is_wasm_file("module.WASM"));
    assert!(!is_wasm_file("wasm"));
    assert!(!is_wasm_file(".wasm"));
    assert!(!is_wasm_file("dir.wasm/module"));
    assert!(!is_wasm_file(""));
    assert!(is_wasm_extension(&Some("wasm".to_string())));
    assert!(!is_wasm_extension(&Some("wasm2".to_string())));
    assert!(!is_wasm_extension(&Some(String::new())));
    assert!(!is_wasm_extension(&None));
}

#[test]
fn wasm_info_summarizes_a_module() {
    let module = Module {
        sections: vec![
            Section::Standard { kind: SectionKind::Type, payload: vec![0x01, 0x60, 0x00, 0x00] },
            Section::Standard {
                kind: SectionKind::Import,
                payload: vec![0x02, 0x01, b'm', 0x01, b'a', 0x00, 0x00, 0x01, b'm', 0x01, b'b', 0x00, 0x00],
            },
            Section::Standard { kind: SectionKind::Function, payload: vec![0x03, 0x00, 0x00, 0x00] },
            Section::Standard { kind: SectionKind::Table, payload: vec![0x01, 0x70, 0x00, 0x01] },
            Section::Standard { kind: SectionKind::Memory, payload: vec![0x01, 0x00, 0x01] },
            Section::Standard { kind: SectionKind::Global, payload: vec![0x00] },
            Section::Standard { kind: SectionKind::Export, payload: vec![0x01, 0x01, b'f', 0x00, 0x02] },
            Section::Standard { kind: SectionKind::Start, payload: vec![0x02] },
            Section::Standard { kind: SectionKind::Element, payload: vec![0x00] },
            Section::Unknown { id: 0x0c, payload: vec![0x00] },
            Section::Standard {
                kind: SectionKind::Code,
                payload: vec![0x03, 0x02, 0x00, 0x0b, 0x02, 0x00, 0x0b, 0x02, 0x00, 0x0b],
            },
            Section::Standard { kind: SectionKind::Data, payload: vec![0x00] },
            Section::Custom { name: b"name".to_vec(), data: vec![] },
            Section::Custom { name: vec![b'a', 0xff, b'b'], data: vec![1] },
        ],
    };
    let bytes = encode(&module);
    let info = get_wasm_info(&bytes).unwrap();
    assert_eq!(info.size, bytes.len());
    assert_eq!(info.imports, 2);
    assert_eq!(info.exports, 1);
    assert_eq!(info.functions, 3);
    assert_eq!(
        info.sections,
        vec![
            "Type",
            "Import",
            "Function",
            "Table",
            "Memory",
            "Global",
            "Export",
            "Element",
            "Code",
            "Data",
            "Custom(name)",
            "Custom(a\u{fffd}b)"
        ]
    );
}

#[test]
fn wasm_info_fails_on_what_cannot_be_read() {
    assert_eq!(get_wasm_info(&[1, 2, 3]).unwrap_err().reason, ParseErrorReason::MalformedHeader);
    let module = Module {
        sections: vec![Section::Standard { kind: SectionKind::Export, payload: vec![0x80] }],
    };
    let error = get_wasm_info(&encode(&module)).unwrap_err();
    assert_eq!(error.reason, ParseErrorReason::TruncatedLength);
    assert_eq!(error.offset, 0);
    let empty = get_wasm_info(&[0x00, 0x61, 0x73, 0x6d, 0x01, 0x00, 0x00, 0x00]).unwrap();
    assert_eq!((empty.size, empty.imports, empty.exports, empty.functions), (8, 0, 0, 0));
    assert!(empty.sections.is_empty());
}
