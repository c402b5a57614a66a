use wasm_wizard::codec::{decode, encode};
use wasm_wizard::module::{Module, ParseError, ParseErrorReason, Section, SectionKind};
use wasm_wizard::optimizer::{
    is_debug, is_essential, optimize, optimize_imports_exports, remove_debug_sections,
    strip_custom_sections, Engine, Optimizer,
};

fn custom(name: &str) -> Section {
    Section::Custom { name: name.as_bytes().to_vec(), data: vec![name.len() as u8, 0xaa] }
}

fn sample() -> Module {
    Module {
        sections: vec![
            custom("producers"),
            Section::Standard { kind: SectionKind::Type, payload: vec![0x01, 0x60, 0x00, 0x00] },
            custom(".debug_info"),
            custom("name"),
            Section::Standard { kind: SectionKind::Function, payload: vec![0x01, 0x00] },
            custom("debug"),
            custom("component-type:demo"),
            Section::Unknown { id: 0x0c, payload: vec![0x00] },
            Section::Standard { kind: SectionKind::Code, payload: vec![0x01, 0x02, 0x00, 0x0b] },
            custom("debugging"),
            custom("Debug"),
            custom("names"),
        ],
    }
}

fn names(module: &Module) -> Vec<String> {
    module
        .sections
        .iter()
        .map(|section| match section {
            Section::Custom { name, .. } => String::from_utf8_lossy(name).into_owned(),
            Section::Standard { kind, .. } => format!("{:?}", kind),
            Section::Unknown { id, .. } => format!("#{}", id),
        })
        .collect()
}

#[test]
fn level_zero_changes_nothing() {
    assert_eq!(optimize(&sample(), 0), sample());
    assert_eq!(optimize(&Module { sections: Vec::new() }, 0), Module { sections: Vec::new() });
}

#[test]
fn level_one_strips_debug_sections_only() {
    assert_eq!(
        names(&optimize(&sample(), 1)),
        vec![
            "producers",
            "Type",
            "name",
            "Function",
            "component-type:demo",
            "#12",
            "Code",
            "Debug",
            "names"
        ]
    );
    assert_eq!(optimize(&sample(), 1), remove_debug_sections(&sample()));
}

#[test]
fn level_two_keeps_only_the_allowlist() {
    let expected = vec!["Type", "name", "Function", "component-type:demo", "#12", "Code"];
    assert_eq!(names(&optimize(&sample(), 2)), expected);
    assert_eq!(names(&optimize(&sample(), 3)), expected);
    assert_eq!(names(&optimize(&sample(), 4)), expected);
    assert_eq!(names(&optimize(&sample(), 200)), expected);
    assert_eq!(optimize(&sample(), 2), strip_custom_sections(&optimize(&sample(), 1)));
}

#[test]
fn the_allowlist_pass_alone_keeps_no_debug_section() {
    assert_eq!(
        names(&strip_custom_sections(&sample())),
        vec!["Type", "name", "Function", "component-type:demo", "#12", "Code"]
    );
}

#[test]
fn optimizing_twice_is_optimizing_once() {
    for level in 0..=4 {
        let once = optimize(&sample(), level);
        assert_eq!(optimize(&once, level), once);
    }
}

#[test]
fn kept_sections_keep_their_payload_and_order() {
    let optimized = optimize(&sample(), 2);
    assert_eq!(optimized.sections[1], custom("name"));
    assert_eq!(
        optimized.sections[5],
        Section::Standard { kind: SectionKind::Code, payload: vec![0x01, 0x02, 0x00, 0x0b] }
    );
    assert_eq!(optimize_imports_exports(&sample()), sample());
}

#[test]
fn debug_and_essential_names() {
    assert!(is_debug(b"debug"));
    assert!(is_debug(b"debug_line"));
    assert!(is_debug(b".debug_str"));
    assert!(!is_debug(b".debu"));
    assert!(!is_debug(b"_debug"));
    assert!(!is_debug(b""));
    assert!(is_essential(b"name"));
    assert!(is_essential(b"component"));
    assert!(is_essential(b"component-type"));
    assert!(!is_essential(b"names"));
    assert!(!is_essential(b"nam"));
    assert!(!is_essential(b"componen"));
}

#[test]
fn manual_optimize_works_on_bytes() {
    let optimizer = Optimizer::new(None);
    let bytes = encode(&sample());
    assert_eq!(optimizer.manual_optimize(&bytes, 0), Ok(bytes.clone()));
    assert_eq!(optimizer.manual_optimize(&bytes, 1), Ok(encode(&optimize(&sample(), 1))));
    assert_eq!(optimizer.manual_optimize(&bytes, 2), Ok(encode(&optimize(&sample(), 2))));
    assert_eq!(optimizer.remove_debug_sections(&bytes), Ok(encode(&optimize(&sample(), 1))));
    assert_eq!(optimizer.strip_custom_sections(&bytes), Ok(encode(&optimize(&sample(), 2))));
    assert_eq!(optimizer.optimize_imports_exports(&bytes), Ok(bytes.clone()));
    let reduced = optimizer.manual_optimize(&bytes, 2).unwrap();
    assert!(reduced.len() < bytes.len());
    assert_eq!(decode(&reduced).unwrap(), optimize(&sample(), 2));
}

#[test]
fn manual_optimize_validates_at_every_level() {
    let optimizer = Optimizer::new(None);
    let bad = [0x00, 0x61, 0x73, 0x6d, 0x01, 0x00, 0x00, 0x00, 0x01, 0x05, 0x00];
    let error = ParseError { offset: 9, reason: ParseErrorReason::LengthOverrun };
    assert_eq!(optimizer.manual_optimize(&bad, 0), Err(error));
    assert_eq!(optimizer.manual_optimize(&bad, 3), Err(error));
}

#[test]
fn a_padded_length_survives_level_zero_and_is_rewritten_above() {
    let optimizer = Optimizer::new(None);
    let padded = [0x00, 0x61, 0x73, 0x6d, 0x01, 0x00, 0x00, 0x00, 0x01, 0x81, 0x00, 0x00];
    assert_eq!(optimizer.manual_optimize(&padded, 0), Ok(padded.to_vec()));
    assert_eq!(
        optimizer.manual_optimize(&padded, 1),
        Ok(vec![0x00, 0x61, 0x73, 0x6d, 0x01, 0x00, 0x00, 0x00, 0x01, 0x01, 0x00])
    );
}

#[test]
fn optimizer_writes_sections_and_integers() {
    let optimizer = Optimizer::new(None);
    let mut out = vec![0xff];
    optimizer.write_uleb128(&mut out, 300);
    assert_eq!(out, vec![0xff, 0xac, 0x02]);
    let mut out = Vec::new();
    optimizer.write_custom_section(&mut out, b"name", &[1, 2]);
    assert_eq!(out, vec![0x00, 0x07, 0x04, b'n', b'a', b'm', b'e', 1, 2]);
    let long_name = vec![b'x'; 200];
    let mut out = Vec::new();
    optimizer.write_custom_section(&mut out, &long_name, &[9]);
    assert_eq!(&out[..5], &[0x00, 0xcb, 0x01, 0xc8, 0x01]);
    assert_eq!(out.len(), 5 + 200 + 1);
}

#[test]
fn the_optimizer_selects_its_engine_once() {
    assert_eq!(Optimizer::new(None).engine(), Engine::BuiltIn);
    assert_eq!(Optimizer::new(Some("/usr/bin/wasm-opt".to_string())).engine(), Engine::ProcessBacked);
    assert_eq!(
        Optimizer::tool_arguments(3, "in.wasm", "out.wasm"),
        vec![
            "-O3",
            "in.wasm",
            "-o",
            "out.wasm",
            "--enable-bulk-memory",
            "--enable-reference-types",
            "--enable-simd",
            "--enable-threads",
            "--strip-debug",
            "--strip-producers"
        ]
    );
    assert_eq!(Optimizer::tool_arguments(255, "a", "b")[0], "-O255");
    assert_eq!(Optimizer::tool_arguments(0, "a", "b")[0], "-O0");
}
