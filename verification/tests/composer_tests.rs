use wasm_wizard::codec::{decode, encode};
use wasm_wizard::composer::{compose, Composer, LinkError};
use wasm_wizard::config::{
    default_config, parse_strategy, strategy_name, CompositionConfig, ComponentConfig, Connection,
    LinkStrategy, LinkingConfig, OutputConfig,
};
use wasm_wizard::catalog::{exports_of, imports_of, ExternKind};
use wasm_wizard::layout::Refusal;
use wasm_wizard::module::{Module, ParseErrorReason, Section, SectionKind};
use wasm_wizard::optimizer::Engine;

fn standard(kind: SectionKind, payload: &[u8]) -> Section {
    Section::Standard { kind, payload: payload.to_vec() }
}

/// A module that defines and exports one function `() -> i32` under `name`,
/// returning `value`.
fn provider(name: &str, value: u8) -> Module {
    let mut export = vec![0x01, name.len() as u8];
    export.extend_from_slice(name.as_bytes());
    export.extend_from_slice(&[0x00, 0x00]);
    Module {
        sections: vec![
            standard(SectionKind::Type, &[0x01, 0x60, 0x00, 0x01, 0x7f]),
            standard(SectionKind::Function, &[0x01, 0x00]),
            standard(SectionKind::Export, &export),
            standard(SectionKind::Code, &[0x01, 0x04, 0x00, 0x41, value, 0x0b]),
        ],
    }
}

/// A module that imports `env.<name>` as a function `() -> i32`, and defines
/// and exports `g`, which calls the import and adds one.
fn consumer(name: &str) -> Module {
    let mut import = vec![0x01, 0x03, b'e', b'n', b'v', name.len() as u8];
    import.extend_from_slice(name.as_bytes());
    import.extend_from_slice(&[0x00, 0x00]);
    Module {
        sections: vec![
            standard(SectionKind::Type, &[0x01, 0x60, 0x00, 0x01, 0x7f]),
            standard(SectionKind::Import, &import),
            standard(SectionKind::Function, &[0x01, 0x00]),
            standard(SectionKind::Export, &[0x01, 0x01, b'g', 0x00, 0x01]),
            standard(SectionKind::Code, &[0x01, 0x07, 0x00, 0x10, 0x00, 0x41, 0x01, 0x6a, 0x0b]),
        ],
    }
}

fn auto() -> CompositionConfig {
    default_config(Vec::new())
}

fn named(names: &[&str], connections: Vec<Connection>) -> CompositionConfig {
    CompositionConfig {
        components: names
            .iter()
            .map(|n| ComponentConfig {
                name: n.to_string(),
                path: format!("{}.wasm", n),
                exports: Vec::new(),
                imports: Vec::new(),
            })
            .collect(),
        output: OutputConfig { name: "composed".to_string(), format: "module".to_string() },
        linking: LinkingConfig { strategy: LinkStrategy::Manual, connections },
    }
}

fn connection(from: &str, export: &str, to: &str, import: &str) -> Connection {
    Connection {
        from: from.to_string(),
        to: to.to_string(),
        export: export.to_string(),
        import: import.to_string(),
    }
}

fn payload(module: &Module, kind: SectionKind) -> Vec<u8> {
    for section in &module.sections {
        if let Section::Standard { kind: k, payload } = section {
            if *k == kind {
                return payload.clone();
            }
        }
    }
    panic!("no section of kind {:?}", kind);
}

#[test]
fn compose_nothing_fails_with_no_components() {
    assert_eq!(compose(&Vec::new(), &auto()), Err(LinkError::NoComponents));
    let composer = Composer::new(None);
    assert_eq!(composer.manual_compose(&Vec::new(), &auto()), Err(LinkError::NoComponents));
}

#[test]
fn auto_binds_an_import_to_the_export_of_another_module() {
    let linked = compose(&vec![provider("f", 42), consumer("f")], &auto()).unwrap();
    assert_eq!(imports_of(&linked).unwrap(), Vec::new());
    let exports = exports_of(&linked).unwrap();
    assert_eq!(exports.len(), 2);
    assert_eq!((exports[0].name.as_slice(), exports[0].index), (b"f".as_slice(), 0));
    assert_eq!((exports[1].name.as_slice(), exports[1].index), (b"g".as_slice(), 1));
    assert_eq!(
        payload(&linked, SectionKind::Type),
        vec![0x02, 0x60, 0x00, 0x01, 0x7f, 0x60, 0x00, 0x01, 0x7f]
    );
    assert_eq!(payload(&linked, SectionKind::Function), vec![0x02, 0x00, 0x01]);
    assert_eq!(
        payload(&linked, SectionKind::Code),
        vec![0x02, 0x04, 0x00, 0x41, 42, 0x0b, 0x07, 0x00, 0x10, 0x00, 0x41, 0x01, 0x6a, 0x0b]
    );
    wasmparser::validate(&encode(&linked)).unwrap();
}

#[test]
fn call_sites_are_shifted_into_the_merged_index_space() {
    let linked = compose(&vec![consumer("f"), provider("f", 7)], &auto()).unwrap();
    assert_eq!(imports_of(&linked).unwrap(), Vec::new());
    let exports = exports_of(&linked).unwrap();
    assert_eq!((exports[0].name.as_slice(), exports[0].index), (b"g".as_slice(), 0));
    assert_eq!((exports[1].name.as_slice(), exports[1].index), (b"f".as_slice(), 1));
    assert_eq!(
        payload(&linked, SectionKind::Code),
        vec![0x02, 0x07, 0x00, 0x10, 0x01, 0x41, 0x01, 0x6a, 0x0b, 0x04, 0x00, 0x41, 7, 0x0b]
    );
    assert_eq!(payload(&linked, SectionKind::Function), vec![0x02, 0x00, 0x01]);
    wasmparser::validate(&encode(&linked)).unwrap();
}

#[test]
fn an_import_that_nothing_offers_stays_an_import() {
    let linked = compose(&vec![provider("f", 1), consumer("log")], &auto()).unwrap();
    let imports = imports_of(&linked).unwrap();
    assert_eq!(imports.len(), 1);
    assert_eq!(imports[0].module, b"env".to_vec());
    assert_eq!(imports[0].name, b"log".to_vec());
    assert_eq!(imports[0].kind, ExternKind::Function);
    assert_eq!(imports[0].descriptor, vec![0x01]);
    let exports = exports_of(&linked).unwrap();
    assert_eq!((exports[0].name.as_slice(), exports[0].index), (b"f".as_slice(), 1));
    assert_eq!((exports[1].name.as_slice(), exports[1].index), (b"g".as_slice(), 2));
    assert_eq!(
        payload(&linked, SectionKind::Code),
        vec![0x02, 0x04, 0x00, 0x41, 1, 0x0b, 0x07, 0x00, 0x10, 0x00, 0x41, 0x01, 0x6a, 0x0b]
    );
    wasmparser::validate(&encode(&linked)).unwrap();
}

#[test]
fn two_candidates_for_one_import_are_ambiguous() {
    let modules = vec![provider("f", 1), provider("f", 2), consumer("f")];
    assert_eq!(compose(&modules, &auto()), Err(LinkError::AmbiguousImport(vec![b"f".to_vec()])));
}

#[test]
fn a_manual_connection_binds_what_it_names() {
    let config = named(&["a", "b", "c"], vec![connection("b", "f", "c", "f")]);
    let modules = vec![provider("f", 1), provider("f", 2), consumer("f")];
    assert_eq!(
        compose(&modules, &config),
        Err(LinkError::Unsupported { component: 1, reason: Refusal::RepeatedExport })
    );
    let modules = vec![provider("f", 1), provider("h", 2), consumer("h")];
    let config = named(&["a", "b", "c"], vec![connection("b", "h", "c", "h")]);
    let linked = compose(&modules, &config).unwrap();
    assert_eq!(imports_of(&linked).unwrap(), Vec::new());
    assert_eq!(
        payload(&linked, SectionKind::Code),
        vec![
            0x03, 0x04, 0x00, 0x41, 1, 0x0b, 0x04, 0x00, 0x41, 2, 0x0b, 0x07, 0x00, 0x10, 0x01,
            0x41, 0x01, 0x6a, 0x0b
        ]
    );
    wasmparser::validate(&encode(&linked)).unwrap();
}

#[test]
fn manual_leaves_unconnected_imports_alone() {
    let config = named(&["a", "b"], Vec::new());
    let linked = compose(&vec![provider("f", 1), consumer("f")], &config).unwrap();
    assert_eq!(imports_of(&linked).unwrap().len(), 1);
    wasmparser::validate(&encode(&linked)).unwrap();
}

#[test]
fn a_connection_to_a_missing_export_is_unresolved() {
    let config = named(&["a", "b"], vec![connection("a", "nope", "b", "f")]);
    assert_eq!(
        compose(&vec![provider("f", 1), consumer("f")], &config),
        Err(LinkError::UnresolvedConnection(vec!["nope".to_string()]))
    );
}

#[test]
fn a_connection_with_two_wrong_names_reports_both() {
    let config = named(&["a", "b"], vec![connection("a", "nope", "zz", "f")]);
    assert_eq!(
        compose(&vec![provider("f", 1), consumer("f")], &config),
        Err(LinkError::UnresolvedConnection(vec!["nope".to_string(), "zz".to_string()]))
    );
    let config = named(
        &["a", "b"],
        vec![connection("yy", "f", "b", "nope"), connection("a", "gone", "b", "lost")],
    );
    assert_eq!(
        compose(&vec![provider("f", 1), consumer("f")], &config),
        Err(LinkError::UnresolvedConnection(vec![
            "yy".to_string(),
            "nope".to_string(),
            "gone".to_string(),
            "lost".to_string()
        ]))
    );
}

#[test]
fn every_offending_connection_is_reported() {
    let config = named(
        &["a", "b"],
        vec![
            connection("x", "f", "b", "f"),
            connection("a", "f", "y", "f"),
            connection("a", "f", "b", "nope"),
            connection("a", "f", "b", "f"),
            connection("a", "f", "b", "f"),
        ],
    );
    assert_eq!(
        compose(&vec![provider("f", 1), consumer("f")], &config),
        Err(LinkError::UnresolvedConnection(vec![
            "x".to_string(),
            "y".to_string(),
            "nope".to_string(),
            "f".to_string()
        ]))
    );
}

#[test]
fn a_module_that_cannot_be_read_aborts_the_composition() {
    let broken = Module { sections: vec![standard(SectionKind::Import, &[0x01, 0x05, b'e'])] };
    let result = compose(&vec![provider("f", 1), broken], &auto());
    match result {
        Err(LinkError::Malformed { component, error }) => {
            assert_eq!(component, 1);
            assert_eq!(error.reason, ParseErrorReason::LengthOverrun);
            assert_eq!(error.offset, 1);
        }
        other => panic!("unexpected {:?}", other),
    }
    let composer = Composer::new(None);
    let bytes = vec![encode(&provider("f", 1)), vec![0x00, 0x61, 0x73]];
    match composer.manual_compose(&bytes, &auto()) {
        Err(LinkError::Malformed { component, error }) => {
            assert_eq!(component, 1);
            assert_eq!(error.reason, ParseErrorReason::MalformedHeader);
        }
        other => panic!("unexpected {:?}", other),
    }
}

#[test]
fn the_memories_of_two_modules_stand_side_by_side() {
    let mut first = provider("f", 1);
    first.sections.insert(2, standard(SectionKind::Memory, &[0x01, 0x00, 0x01]));
    let mut second = consumer("f");
    second.sections.insert(3, standard(SectionKind::Memory, &[0x01, 0x01, 0x02, 0x03]));
    let linked = compose(&vec![first.clone(), second.clone()], &auto()).unwrap();
    assert_eq!(imports_of(&linked).unwrap(), Vec::new());
    assert_eq!(
        payload(&linked, SectionKind::Memory),
        vec![0x02, 0x00, 0x01, 0x01, 0x02, 0x03]
    );
    wasmparser::validate(&encode(&linked)).unwrap();
    let linked = compose(&vec![second, first], &auto()).unwrap();
    assert_eq!(
        payload(&linked, SectionKind::Memory),
        vec![0x02, 0x01, 0x02, 0x03, 0x00, 0x01]
    );
    wasmparser::validate(&encode(&linked)).unwrap();
}

/// A module with a table, a memory, a global, an element segment and a data
/// segment of its own. Its function reads the global, loads from memory,
/// calls through the table and asks for the size of the memory.
fn stateful(name: &str, byte: u8) -> Module {
    let mut export = vec![0x01, name.len() as u8];
    export.extend_from_slice(name.as_bytes());
    export.extend_from_slice(&[0x00, 0x00]);
    Module {
        sections: vec![
            standard(SectionKind::Type, &[0x01, 0x60, 0x00, 0x01, 0x7f]),
            standard(SectionKind::Function, &[0x01, 0x00]),
            standard(SectionKind::Table, &[0x01, 0x70, 0x00, 0x01]),
            standard(SectionKind::Memory, &[0x01, 0x00, 0x01]),
            standard(SectionKind::Global, &[0x01, 0x7f, 0x01, 0x41, 0x08, 0x0b]),
            standard(SectionKind::Export, &export),
            standard(SectionKind::Element, &[0x01, 0x00, 0x41, 0x00, 0x0b, 0x01, 0x00]),
            standard(
                SectionKind::Code,
                &[
                    0x01, 0x10, 0x00, 0x23, 0x00, 0x28, 0x02, 0x00, 0x41, 0x00, 0x11, 0x00, 0x00,
                    0x6a, 0x3f, 0x00, 0x1a, 0x0b,
                ],
            ),
            standard(SectionKind::Data, &[0x01, 0x00, 0x41, 0x00, 0x0b, 0x01, byte]),
        ],
    }
}

#[test]
fn every_index_space_is_renumbered() {
    wasmparser::validate(&encode(&stateful("a", 1))).unwrap();
    let linked = compose(&vec![stateful("a", 1), stateful("b", 2)], &auto()).unwrap();
    assert_eq!(payload(&linked, SectionKind::Function), vec![0x02, 0x00, 0x01]);
    assert_eq!(
        payload(&linked, SectionKind::Table),
        vec![0x02, 0x70, 0x00, 0x01, 0x70, 0x00, 0x01]
    );
    assert_eq!(payload(&linked, SectionKind::Memory), vec![0x02, 0x00, 0x01, 0x00, 0x01]);
    assert_eq!(
        payload(&linked, SectionKind::Global),
        vec![0x02, 0x7f, 0x01, 0x41, 0x08, 0x0b, 0x7f, 0x01, 0x41, 0x08, 0x0b]
    );
    assert_eq!(
        payload(&linked, SectionKind::Export),
        vec![0x02, 0x01, b'a', 0x00, 0x00, 0x01, b'b', 0x00, 0x01]
    );
    assert_eq!(
        payload(&linked, SectionKind::Element),
        vec![
            0x02, 0x00, 0x41, 0x00, 0x0b, 0x01, 0x00, 0x02, 0x01, 0x41, 0x00, 0x0b, 0x00, 0x01,
            0x01
        ]
    );
    assert_eq!(
        payload(&linked, SectionKind::Code),
        vec![
            0x02, 0x10, 0x00, 0x23, 0x00, 0x28, 0x02, 0x00, 0x41, 0x00, 0x11, 0x00, 0x00, 0x6a,
            0x3f, 0x00, 0x1a, 0x0b, 0x11, 0x00, 0x23, 0x01, 0x28, 0x42, 0x01, 0x00, 0x41, 0x00,
            0x11, 0x01, 0x01, 0x6a, 0x3f, 0x01, 0x1a, 0x0b,
        ]
    );
    assert_eq!(
        payload(&linked, SectionKind::Data),
        vec![0x02, 0x00, 0x41, 0x00, 0x0b, 0x01, 0x01, 0x02, 0x01, 0x41, 0x00, 0x0b, 0x01, 0x02]
    );
    wasmparser::validate(&encode(&linked)).unwrap();
    // Three of them, and a module that only borrows.
    let linked = compose(
        &vec![guest(), stateful("a", 1), host(), stateful("b", 2), stateful("c", 3)],
        &named(
            &["guest", "a", "host", "b", "c"],
            vec![
                connection("host", "memory", "guest", "memory"),
                connection("host", "sp", "guest", "sp"),
            ],
        ),
    )
    .unwrap();
    assert_eq!(imports_of(&linked).unwrap(), Vec::new());
    wasmparser::validate(&encode(&linked)).unwrap();
}

#[test]
fn a_second_start_function_is_refused() {
    let mut first = provider("f", 1);
    first.sections[0] = standard(SectionKind::Type, &[0x02, 0x60, 0x00, 0x01, 0x7f, 0x60, 0x00, 0x00]);
    first.sections[1] = standard(SectionKind::Function, &[0x02, 0x00, 0x01]);
    first.sections.insert(3, standard(SectionKind::Start, &[0x01]));
    first.sections[4] =
        standard(SectionKind::Code, &[0x02, 0x04, 0x00, 0x41, 0x01, 0x0b, 0x02, 0x00, 0x0b]);
    wasmparser::validate(&encode(&first)).unwrap();
    let mut second = first.clone();
    second.sections[2] = standard(SectionKind::Export, &[0x01, 0x01, b'h', 0x00, 0x00]);
    assert_eq!(
        compose(&vec![first.clone(), second], &auto()),
        Err(LinkError::Unsupported { component: 1, reason: Refusal::SecondStart })
    );
    let linked = compose(&vec![provider("h", 2), first], &auto()).unwrap();
    assert_eq!(payload(&linked, SectionKind::Start), vec![0x02]);
    wasmparser::validate(&encode(&linked)).unwrap();
}

#[test]
fn unknown_sections_and_unknown_instructions_are_refused() {
    let mut module = provider("f", 1);
    module.sections.push(Section::Unknown { id: 0x0d, payload: vec![0x00] });
    assert_eq!(
        compose(&vec![module], &auto()),
        Err(LinkError::Unsupported { component: 0, reason: Refusal::UnknownSection })
    );
    let mut module = provider("f", 1);
    module.sections[3] = standard(SectionKind::Code, &[0x01, 0x04, 0x00, 0x14, 0x00, 0x0b]);
    match compose(&vec![module], &auto()) {
        Err(LinkError::Malformed { component: 0, error }) => {
            assert_eq!(error.reason, ParseErrorReason::Unsupported);
            assert_eq!(error.offset, 3);
        }
        other => panic!("unexpected {:?}", other),
    }
}

#[test]
fn the_data_count_travels_with_the_data_segments() {
    // A module with a memory, one passive data segment and a function that
    // drops it, which needs the data count section.
    let stateful = Module {
        sections: vec![
            standard(SectionKind::Type, &[0x01, 0x60, 0x00, 0x00]),
            standard(SectionKind::Function, &[0x01, 0x00]),
            standard(SectionKind::Memory, &[0x01, 0x00, 0x01]),
            standard(SectionKind::Export, &[0x01, 0x01, b'd', 0x00, 0x00]),
            Section::Unknown { id: 0x0c, payload: vec![0x01] },
            standard(SectionKind::Code, &[0x01, 0x05, 0x00, 0xfc, 0x09, 0x00, 0x0b]),
            standard(SectionKind::Data, &[0x01, 0x01, 0x02, 0xaa, 0xbb]),
        ],
    };
    wasmparser::validate(&encode(&stateful)).unwrap();
    let linked = compose(&vec![provider("f", 1), stateful.clone()], &auto()).unwrap();
    assert_eq!(linked.sections.len(), 7);
    assert_eq!(linked.sections[4], Section::Unknown { id: 0x0c, payload: vec![0x01] });
    assert_eq!(payload(&linked, SectionKind::Data), vec![0x01, 0x01, 0x02, 0xaa, 0xbb]);
    wasmparser::validate(&encode(&linked)).unwrap();
    // Two such modules: the data segments are counted together, and the
    // second module drops its own.
    let mut second = stateful.clone();
    second.sections[3] = standard(SectionKind::Export, &[0x01, 0x01, b'e', 0x00, 0x00]);
    let linked = compose(&vec![stateful, second], &auto()).unwrap();
    assert_eq!(linked.sections[4], Section::Unknown { id: 0x0c, payload: vec![0x02] });
    assert_eq!(
        payload(&linked, SectionKind::Code),
        vec![0x02, 0x05, 0x00, 0xfc, 0x09, 0x00, 0x0b, 0x05, 0x00, 0xfc, 0x09, 0x01, 0x0b]
    );
    assert_eq!(
        payload(&linked, SectionKind::Data),
        vec![0x02, 0x01, 0x02, 0xaa, 0xbb, 0x01, 0x02, 0xaa, 0xbb]
    );
    wasmparser::validate(&encode(&linked)).unwrap();
}

#[test]
fn custom_sections_are_not_carried_over() {
    let mut module = provider("f", 1);
    module.sections.push(Section::Custom { name: b"name".to_vec(), data: vec![1, 2, 3] });
    let linked = compose(&vec![module], &auto()).unwrap();
    assert_eq!(linked, provider("f", 1));
}

/// A module that imports `m.h` as function 0 and defines functions 1 and 2.
/// It brings a table, a global initialised with `ref.func 2`, the start
/// function 1, two element segments, and exports function 2 as `r`. The body
/// of function 2 holds a block of type 1, a `call_indirect` of type 1 and a
/// call of function 0.
fn main_module() -> Module {
    Module {
        sections: vec![
            standard(SectionKind::Type, &[0x02, 0x60, 0x00, 0x00, 0x60, 0x00, 0x01, 0x7f]),
            standard(SectionKind::Import, &[0x01, 0x01, b'm', 0x01, b'h', 0x00, 0x01]),
            standard(SectionKind::Function, &[0x02, 0x00, 0x01]),
            standard(SectionKind::Table, &[0x01, 0x70, 0x00, 0x02]),
            standard(SectionKind::Global, &[0x01, 0x70, 0x00, 0xd2, 0x02, 0x0b]),
            standard(SectionKind::Export, &[0x01, 0x01, b'r', 0x00, 0x02]),
            standard(SectionKind::Start, &[0x01]),
            standard(
                SectionKind::Element,
                &[0x02, 0x00, 0x41, 0x00, 0x0b, 0x02, 0x00, 0x02, 0x03, 0x00, 0x01, 0x01],
            ),
            standard(
                SectionKind::Code,
                &[
                    0x02, 0x02, 0x00, 0x0b, 0x0d, 0x00, 0x02, 0x01, 0x41, 0x00, 0x11, 0x01, 0x00,
                    0x0b, 0x1a, 0x10, 0x00, 0x0b,
                ],
            ),
        ],
    }
}

#[test]
fn elements_start_and_globals_follow_the_functions() {
    wasmparser::validate(&encode(&main_module())).unwrap();
    let linked = compose(&vec![main_module(), provider("h", 9)], &auto()).unwrap();
    assert_eq!(imports_of(&linked).unwrap(), Vec::new());
    assert_eq!(
        payload(&linked, SectionKind::Type),
        vec![0x03, 0x60, 0x00, 0x00, 0x60, 0x00, 0x01, 0x7f, 0x60, 0x00, 0x01, 0x7f]
    );
    assert_eq!(payload(&linked, SectionKind::Function), vec![0x03, 0x00, 0x01, 0x02]);
    assert_eq!(payload(&linked, SectionKind::Table), vec![0x01, 0x70, 0x00, 0x02]);
    assert_eq!(payload(&linked, SectionKind::Global), vec![0x01, 0x70, 0x00, 0xd2, 0x01, 0x0b]);
    assert_eq!(
        payload(&linked, SectionKind::Export),
        vec![0x02, 0x01, b'r', 0x00, 0x01, 0x01, b'h', 0x00, 0x02]
    );
    assert_eq!(payload(&linked, SectionKind::Start), vec![0x00]);
    assert_eq!(
        payload(&linked, SectionKind::Element),
        vec![0x02, 0x00, 0x41, 0x00, 0x0b, 0x02, 0x02, 0x01, 0x03, 0x00, 0x01, 0x00]
    );
    assert_eq!(
        payload(&linked, SectionKind::Code),
        vec![
            0x03, 0x02, 0x00, 0x0b, 0x0d, 0x00, 0x02, 0x01, 0x41, 0x00, 0x11, 0x01, 0x00, 0x0b,
            0x1a, 0x10, 0x02, 0x0b, 0x04, 0x00, 0x41, 9, 0x0b,
        ]
    );
    wasmparser::validate(&encode(&linked)).unwrap();
}

#[test]
fn type_indices_are_moved_behind_the_types_of_earlier_modules() {
    let linked = compose(&vec![provider("h", 9), main_module()], &auto()).unwrap();
    assert_eq!(payload(&linked, SectionKind::Function), vec![0x03, 0x00, 0x01, 0x02]);
    assert_eq!(
        payload(&linked, SectionKind::Code),
        vec![
            0x03, 0x04, 0x00, 0x41, 9, 0x0b, 0x02, 0x00, 0x0b, 0x0d, 0x00, 0x02, 0x02, 0x41, 0x00,
            0x11, 0x02, 0x00, 0x0b, 0x1a, 0x10, 0x00, 0x0b,
        ]
    );
    wasmparser::validate(&encode(&linked)).unwrap();
    // Linking the result with one more module keeps it valid.
    let again = compose(&vec![provider("z", 3), linked], &auto()).unwrap();
    assert_eq!(exports_of(&again).unwrap().len(), 3);
    wasmparser::validate(&encode(&again)).unwrap();
}

#[test]
fn an_export_of_an_imported_function_satisfies_an_import() {
    // The first module exports its own import under the name that the
    // second one asks for.
    let reexporter = Module {
        sections: vec![
            standard(SectionKind::Type, &[0x01, 0x60, 0x00, 0x01, 0x7f]),
            standard(SectionKind::Import, &[0x01, 0x01, b'm', 0x01, b'x', 0x00, 0x00]),
            standard(SectionKind::Export, &[0x01, 0x01, b'f', 0x00, 0x00]),
        ],
    };
    let linked = compose(&vec![reexporter, consumer("f")], &auto()).unwrap();
    let imports = imports_of(&linked).unwrap();
    assert_eq!(imports.len(), 1);
    assert_eq!((imports[0].module.as_slice(), imports[0].name.as_slice()), (b"m".as_slice(), b"x".as_slice()));
    assert_eq!(
        payload(&linked, SectionKind::Code),
        vec![0x01, 0x07, 0x00, 0x10, 0x00, 0x41, 0x01, 0x6a, 0x0b]
    );
    wasmparser::validate(&encode(&linked)).unwrap();
}

/// A module that defines a memory and a mutable global and exports them as
/// `memory` and `sp`, beside a function `f`.
fn host() -> Module {
    Module {
        sections: vec![
            standard(SectionKind::Type, &[0x01, 0x60, 0x00, 0x01, 0x7f]),
            standard(SectionKind::Function, &[0x01, 0x00]),
            standard(SectionKind::Memory, &[0x01, 0x00, 0x01]),
            standard(SectionKind::Global, &[0x01, 0x7f, 0x01, 0x41, 0x10, 0x0b]),
            standard(
                SectionKind::Export,
                &[
                    0x03, 0x06, b'm', b'e', b'm', b'o', b'r', b'y', 0x02, 0x00, 0x02, b's', b'p',
                    0x03, 0x00, 0x01, b'f', 0x00, 0x00,
                ],
            ),
            standard(SectionKind::Code, &[0x01, 0x04, 0x00, 0x41, 0x05, 0x0b]),
        ],
    }
}

/// A module that imports `env.memory` and `env.sp` and defines `g`, which
/// loads from the address that the global holds.
fn guest() -> Module {
    Module {
        sections: vec![
            standard(SectionKind::Type, &[0x01, 0x60, 0x00, 0x01, 0x7f]),
            standard(
                SectionKind::Import,
                &[
                    0x02, 0x03, b'e', b'n', b'v', 0x06, b'm', b'e', b'm', b'o', b'r', b'y', 0x02,
                    0x00, 0x01, 0x03, b'e', b'n', b'v', 0x02, b's', b'p', 0x03, 0x7f, 0x01,
                ],
            ),
            standard(SectionKind::Function, &[0x01, 0x00]),
            standard(SectionKind::Export, &[0x01, 0x01, b'g', 0x00, 0x00]),
            standard(
                SectionKind::Code,
                &[0x01, 0x07, 0x00, 0x23, 0x00, 0x28, 0x02, 0x00, 0x0b],
            ),
        ],
    }
}

#[test]
fn a_memory_and_a_global_are_borrowed_from_the_module_that_defines_them() {
    wasmparser::validate(&encode(&host())).unwrap();
    wasmparser::validate(&encode(&guest())).unwrap();
    for modules in [vec![host(), guest()], vec![guest(), host()]] {
        let linked = compose(&modules, &auto()).unwrap();
        assert_eq!(imports_of(&linked).unwrap(), Vec::new());
        assert_eq!(payload(&linked, SectionKind::Memory), vec![0x01, 0x00, 0x01]);
        assert_eq!(payload(&linked, SectionKind::Global), vec![0x01, 0x7f, 0x01, 0x41, 0x10, 0x0b]);
        assert_eq!(exports_of(&linked).unwrap().len(), 4);
        wasmparser::validate(&encode(&linked)).unwrap();
    }
}

#[test]
fn an_import_cannot_be_bound_to_an_export_of_another_kind() {
    // The provider exports a function under the name of the memory that the
    // guest asks for.
    assert_eq!(
        compose(&vec![provider("memory", 1), guest()], &auto()),
        Err(LinkError::Unsupported { component: 1, reason: Refusal::KindMismatch })
    );
    let asks_function = Module {
        sections: vec![
            standard(SectionKind::Type, &[0x01, 0x60, 0x00, 0x00]),
            standard(SectionKind::Import, &[0x01, 0x00, 0x02, b's', b'p', 0x00, 0x00]),
        ],
    };
    assert_eq!(
        compose(&vec![asks_function, host()], &auto()),
        Err(LinkError::Unsupported { component: 0, reason: Refusal::KindMismatch })
    );
}

#[test]
fn a_bound_global_takes_the_index_of_what_it_is_bound_to() {
    // The lender has two globals and exports the second; the borrower knows
    // its one import as global 0.
    let lender = Module {
        sections: vec![
            standard(
                SectionKind::Global,
                &[0x02, 0x7f, 0x00, 0x41, 0x01, 0x0b, 0x7f, 0x00, 0x41, 0x02, 0x0b],
            ),
            standard(SectionKind::Export, &[0x01, 0x01, b'x', 0x03, 0x01]),
        ],
    };
    let borrower = Module {
        sections: vec![standard(
            SectionKind::Import,
            &[0x01, 0x00, 0x01, b'x', 0x03, 0x7f, 0x00],
        )],
    };
    let mut user = borrower.clone();
    user.sections.insert(0, standard(SectionKind::Type, &[0x01, 0x60, 0x00, 0x01, 0x7f]));
    user.sections.push(standard(SectionKind::Function, &[0x01, 0x00]));
    user.sections.push(standard(SectionKind::Global, &[0x01, 0x7f, 0x00, 0x23, 0x00, 0x0b]));
    user.sections.push(standard(SectionKind::Export, &[0x01, 0x01, b'y', 0x03, 0x01]));
    user.sections.push(standard(SectionKind::Code, &[0x01, 0x04, 0x00, 0x23, 0x01, 0x0b]));
    let linked = compose(&vec![lender.clone(), user.clone()], &auto()).unwrap();
    assert_eq!(imports_of(&linked).unwrap(), Vec::new());
    assert_eq!(
        payload(&linked, SectionKind::Global),
        vec![
            0x03, 0x7f, 0x00, 0x41, 0x01, 0x0b, 0x7f, 0x00, 0x41, 0x02, 0x0b, 0x7f, 0x00, 0x23,
            0x01, 0x0b
        ]
    );
    assert_eq!(
        payload(&linked, SectionKind::Export),
        vec![0x02, 0x01, b'x', 0x03, 0x01, 0x01, b'y', 0x03, 0x02]
    );
    assert_eq!(payload(&linked, SectionKind::Code), vec![0x01, 0x04, 0x00, 0x23, 0x02, 0x0b]);
    let linked = compose(&vec![user, lender], &auto()).unwrap();
    assert_eq!(
        payload(&linked, SectionKind::Export),
        vec![0x02, 0x01, b'y', 0x03, 0x00, 0x01, b'x', 0x03, 0x02]
    );
    assert_eq!(payload(&linked, SectionKind::Code), vec![0x01, 0x04, 0x00, 0x23, 0x00, 0x0b]);
    let first = Module {
        sections: vec![standard(SectionKind::Export, &[0x01, 0x01, b'x', 0x03, 0x00])],
    };
    // What is borrowed must exist.
    match compose(&vec![first, borrower], &auto()) {
        Err(LinkError::Malformed { component: 0, error }) => {
            assert_eq!(error.reason, ParseErrorReason::OutOfRange)
        }
        other => panic!("unexpected {:?}", other),
    }
}

#[test]
fn two_exports_of_a_memory_make_its_import_ambiguous() {
    let mut second = host();
    second.sections.remove(3);
    second.sections[3] = standard(
        SectionKind::Export,
        &[0x01, 0x06, b'm', b'e', b'm', b'o', b'r', b'y', 0x02, 0x00],
    );
    assert_eq!(
        compose(&vec![host(), second, guest()], &auto()),
        Err(LinkError::AmbiguousImport(vec![b"memory".to_vec()]))
    );
}

#[test]
fn an_export_must_name_something_that_exists() {
    let dangling = Module {
        sections: vec![standard(SectionKind::Export, &[0x01, 0x01, b'm', 0x02, 0x00])],
    };
    match compose(&vec![dangling], &auto()) {
        Err(LinkError::Malformed { component: 0, error }) => {
            assert_eq!(error.reason, ParseErrorReason::OutOfRange)
        }
        other => panic!("unexpected {:?}", other),
    }
    let no_function = Module {
        sections: vec![standard(SectionKind::Export, &[0x01, 0x01, b'f', 0x00, 0x00])],
    };
    match compose(&vec![no_function], &auto()) {
        Err(LinkError::Malformed { component: 0, error }) => {
            assert_eq!(error.reason, ParseErrorReason::OutOfRange)
        }
        other => panic!("unexpected {:?}", other),
    }
}

#[test]
fn manual_connections_can_lend_a_memory_and_a_global() {
    let config = named(
        &["host", "guest"],
        vec![
            connection("host", "memory", "guest", "memory"),
            connection("host", "sp", "guest", "sp"),
        ],
    );
    let linked = compose(&vec![host(), guest()], &config).unwrap();
    assert_eq!(imports_of(&linked).unwrap(), Vec::new());
    wasmparser::validate(&encode(&linked)).unwrap();
    // With the memory alone connected, the global stays an import of the
    // result and stands before the global that the host defines.
    let config = named(&["host", "guest"], vec![connection("host", "memory", "guest", "memory")]);
    let linked = compose(&vec![host(), guest()], &config).unwrap();
    let imports = imports_of(&linked).unwrap();
    assert_eq!(imports.len(), 1);
    assert_eq!(imports[0].name, b"sp".to_vec());
    assert_eq!(
        payload(&linked, SectionKind::Code),
        vec![
            0x02, 0x04, 0x00, 0x41, 0x05, 0x0b, 0x07, 0x00, 0x23, 0x00, 0x28, 0x02, 0x00, 0x0b
        ]
    );
    let exports = exports_of(&linked).unwrap();
    assert_eq!((exports[1].name.as_slice(), exports[1].index), (b"sp".as_slice(), 1));
    wasmparser::validate(&encode(&linked)).unwrap();
    // Without any connection both imports stay, and the memory that the
    // host defines stands behind the imported one.
    let linked =
        compose(&vec![guest(), host()], &named(&["guest", "host"], Vec::new())).unwrap();
    assert_eq!(imports_of(&linked).unwrap().len(), 2);
    let exports = exports_of(&linked).unwrap();
    assert_eq!((exports[1].name.as_slice(), exports[1].index), (b"memory".as_slice(), 1));
    wasmparser::validate(&encode(&linked)).unwrap();
}

#[test]
fn the_decoder_finds_the_sections_that_wasmparser_finds() {
    for module in [main_module(), host(), guest(), provider("f", 1), consumer("f")] {
        let bytes = encode(&module);
        let mut found = 0;
        for item in wasmparser::Parser::new(0).parse_all(&bytes) {
            let item = item.unwrap();
            let counts = !matches!(
                item,
                wasmparser::Payload::Version { .. }
                    | wasmparser::Payload::CodeSectionEntry(_)
                    | wasmparser::Payload::End(_)
            );
            if counts {
                found += 1;
            }
        }
        assert_eq!(decode(&bytes).unwrap().sections.len(), found);
        assert_eq!(decode(&bytes).unwrap(), module);
    }
}

#[test]
fn default_config_names_components_by_file_stem() {
    let composer = Composer::new(None);
    let config = composer
        .generate_default_config(&vec!["out/alpha.wasm".to_string(), "beta.wasm".to_string()]);
    assert_eq!(config.components.len(), 2);
    assert_eq!(config.components[0].name, "alpha");
    assert_eq!(config.components[0].path, "out/alpha.wasm");
    assert_eq!(config.components[1].name, "beta");
    assert!(config.components[0].exports.is_empty() && config.components[0].imports.is_empty());
    assert_eq!(config.output.name, "composed");
    assert_eq!(config.output.format, "component");
    assert_eq!(config.linking.strategy, LinkStrategy::Auto);
    assert!(config.linking.connections.is_empty());
}

#[test]
fn strategies_are_read_from_their_names() {
    assert_eq!(parse_strategy("auto"), Some(LinkStrategy::Auto));
    assert_eq!(parse_strategy("manual"), Some(LinkStrategy::Manual));
    assert_eq!(parse_strategy("Auto"), None);
    assert_eq!(parse_strategy(""), None);
    assert_eq!(strategy_name(LinkStrategy::Manual), "manual");
    assert_eq!(strategy_name(LinkStrategy::Auto), "auto");
}

#[test]
fn the_engine_follows_the_probe() {
    assert_eq!(Composer::new(None).engine(), Engine::BuiltIn);
    assert_eq!(Composer::new(Some("/usr/bin/wasm-compose".to_string())).engine(), Engine::ProcessBacked);
    assert_eq!(
        Composer::tool_arguments(Some("c.toml"), "out.wasm", &vec!["a.wasm".to_string()]),
        vec!["-c", "c.toml", "-o", "out.wasm", "a.wasm"]
    );
    assert_eq!(
        Composer::tool_arguments(None, "out.wasm", &vec!["a.wasm".to_string(), "b.wasm".to_string()]),
        vec!["-o", "out.wasm", "a.wasm", "b.wasm"]
    );
}

#[test]
fn analyze_component_reads_imports_and_exports() {
    let composer = Composer::new(None);
    let interface = composer.analyze_component(&encode(&consumer("f"))).unwrap();
    assert_eq!(interface.imports.len(), 1);
    assert_eq!(interface.imports[0].module, b"env".to_vec());
    assert_eq!(interface.imports[0].name, b"f".to_vec());
    assert_eq!(interface.imports[0].descriptor, vec![0x00]);
    assert_eq!(interface.exports.len(), 1);
    assert_eq!(interface.exports[0].name, b"g".to_vec());
    assert_eq!(interface.exports[0].kind, ExternKind::Function);
    assert_eq!(interface.exports[0].index, 1);
    assert!(composer.analyze_component(&[0x00]).is_err());
}

fn sized(body: &[u8]) -> Vec<u8> {
    let mut out = vec![body.len() as u8];
    out.extend_from_slice(body);
    out
}

/// A module that uses every index space: it imports a function and a
/// global, and has element segments and data segments of every form.
fn rich(name: &str) -> Module {
    let mut export = vec![0x03, name.len() as u8];
    export.extend_from_slice(name.as_bytes());
    export.extend_from_slice(&[0x00, 0x01]);
    export.extend_from_slice(&[name.len() as u8 + 1, b'm']);
    export.extend_from_slice(name.as_bytes());
    export.extend_from_slice(&[0x02, 0x00]);
    export.extend_from_slice(&[name.len() as u8 + 1, b't']);
    export.extend_from_slice(name.as_bytes());
    export.extend_from_slice(&[0x01, 0x00]);
    let first: Vec<u8> = vec![
        0x01, 0x01, 0x7f, // one local
        0x02, 0x7f, 0x20, 0x00, 0x0b, 0x1a, // block with a value type
        0x02, 0x00, 0x10, 0x00, 0x0b, // block with a type index, call of the import
        0x41, 0x00, 0x25, 0x00, 0x1a, // table.get
        0x41, 0x00, 0xd2, 0x02, 0x26, 0x00, // ref.func, table.set
        0x41, 0x00, 0x41, 0x00, 0x41, 0x01, 0xfc, 0x0a, 0x00, 0x00, // memory.copy
        0x41, 0x00, 0x41, 0x00, 0x41, 0x01, 0xfc, 0x08, 0x01, 0x00, // memory.init
        0xfc, 0x09, 0x01, // data.drop
        0x41, 0x00, 0x41, 0x00, 0x41, 0x01, 0xfc, 0x0c, 0x01, 0x00, // table.init
        0xfc, 0x0d, 0x01, // elem.drop
        0x41, 0x00, 0x41, 0x00, 0x41, 0x01, 0xfc, 0x0e, 0x00, 0x00, // table.copy
        0xfc, 0x10, 0x00, 0x1a, // table.size
        0x41, 0x00, 0x41, 0x07, 0x36, 0x02, 0x00, // i32.store
        0x23, 0x01, 0x24, 0x01, // global.get, global.set
        0x20, 0x00, 0x41, 0x00, 0x11, 0x01, 0x00, // call_indirect
        0x0b,
    ];
    let mut code = vec![0x02];
    code.extend_from_slice(&sized(&first));
    code.extend_from_slice(&sized(&[0x00, 0x0b]));
    let mut elements = vec![0x08];
    elements.extend_from_slice(&[0x00, 0x41, 0x00, 0x0b, 0x01, 0x01]);
    elements.extend_from_slice(&[0x01, 0x00, 0x01, 0x02]);
    elements.extend_from_slice(&[0x02, 0x00, 0x41, 0x00, 0x0b, 0x00, 0x01, 0x01]);
    elements.extend_from_slice(&[0x03, 0x00, 0x01, 0x02]);
    elements.extend_from_slice(&[0x04, 0x41, 0x01, 0x0b, 0x01, 0xd2, 0x01, 0x0b]);
    elements.extend_from_slice(&[0x05, 0x70, 0x01, 0xd2, 0x02, 0x0b]);
    elements.extend_from_slice(&[0x06, 0x00, 0x41, 0x00, 0x0b, 0x70, 0x01, 0xd0, 0x70, 0x0b]);
    elements.extend_from_slice(&[0x07, 0x70, 0x01, 0xd2, 0x01, 0x0b]);
    Module {
        sections: vec![
            standard(SectionKind::Type, &[0x02, 0x60, 0x00, 0x00, 0x60, 0x01, 0x7f, 0x01, 0x7f]),
            standard(
                SectionKind::Import,
                &[
                    0x02, 0x03, b'e', b'n', b'v', 0x03, b'l', b'o', b'g', 0x00, 0x00, 0x03, b'e',
                    b'n', b'v', 0x04, b'b', b'a', b's', b'e', 0x03, 0x7f, 0x00,
                ],
            ),
            standard(SectionKind::Function, &[0x02, 0x01, 0x00]),
            standard(SectionKind::Table, &[0x01, 0x70, 0x00, 0x02]),
            standard(SectionKind::Memory, &[0x01, 0x00, 0x01]),
            standard(SectionKind::Global, &[0x01, 0x7f, 0x01, 0x23, 0x00, 0x0b]),
            standard(SectionKind::Export, &export),
            standard(SectionKind::Element, &elements),
            Section::Unknown { id: 0x0c, payload: vec![0x03] },
            standard(SectionKind::Code, &code),
            standard(
                SectionKind::Data,
                &[
                    0x03, 0x00, 0x41, 0x00, 0x0b, 0x01, 0xaa, 0x01, 0x01, 0xbb, 0x02, 0x00, 0x41,
                    0x00, 0x0b, 0x01, 0xcc,
                ],
            ),
        ],
    }
}

#[test]
fn segments_and_instructions_of_every_form_are_rewritten() {
    wasmparser::validate(&encode(&rich("a"))).unwrap();
    // Alone, a module comes out as it went in.
    assert_eq!(compose(&vec![rich("a")], &auto()).unwrap(), rich("a"));
    let linked = compose(&vec![rich("a"), rich("b")], &auto()).unwrap();
    wasmparser::validate(&encode(&linked)).unwrap();
    assert_eq!(imports_of(&linked).unwrap().len(), 4);
    assert_eq!(linked.sections[8], Section::Unknown { id: 0x0c, payload: vec![0x06] });
    let exports = exports_of(&linked).unwrap();
    let found: Vec<(Vec<u8>, u32)> = exports.iter().map(|e| (e.name.clone(), e.index)).collect();
    assert_eq!(
        found,
        vec![
            (b"a".to_vec(), 2),
            (b"ma".to_vec(), 0),
            (b"ta".to_vec(), 0),
            (b"b".to_vec(), 4),
            (b"mb".to_vec(), 1),
            (b"tb".to_vec(), 1),
        ]
    );
    // The second module's globals: its import is global 1, its own global 3.
    assert_eq!(
        payload(&linked, SectionKind::Global),
        vec![0x02, 0x7f, 0x01, 0x23, 0x00, 0x0b, 0x7f, 0x01, 0x23, 0x01, 0x0b]
    );
    let second: Vec<u8> = vec![
        0x01, 0x01, 0x7f, //
        0x02, 0x7f, 0x20, 0x00, 0x0b, 0x1a, //
        0x02, 0x02, 0x10, 0x01, 0x0b, //
        0x41, 0x00, 0x25, 0x01, 0x1a, //
        0x41, 0x00, 0xd2, 0x05, 0x26, 0x01, //
        0x41, 0x00, 0x41, 0x00, 0x41, 0x01, 0xfc, 0x0a, 0x01, 0x01, //
        0x41, 0x00, 0x41, 0x00, 0x41, 0x01, 0xfc, 0x08, 0x04, 0x01, //
        0xfc, 0x09, 0x04, //
        0x41, 0x00, 0x41, 0x00, 0x41, 0x01, 0xfc, 0x0c, 0x09, 0x01, //
        0xfc, 0x0d, 0x09, //
        0x41, 0x00, 0x41, 0x00, 0x41, 0x01, 0xfc, 0x0e, 0x01, 0x01, //
        0xfc, 0x10, 0x01, 0x1a, //
        0x41, 0x00, 0x41, 0x07, 0x36, 0x42, 0x01, 0x00, //
        0x23, 0x03, 0x24, 0x03, //
        0x20, 0x00, 0x41, 0x00, 0x11, 0x03, 0x01, //
        0x0b,
    ];
    let code = payload(&linked, SectionKind::Code);
    assert_eq!(code[0], 0x04);
    let tail = sized(&[0x00, 0x0b]);
    let mut expected = sized(&second);
    expected.extend_from_slice(&tail);
    assert_eq!(code[code.len() - expected.len()..].to_vec(), expected);
    let elements = payload(&linked, SectionKind::Element);
    assert_eq!(elements[0], 0x10);
    let mut moved: Vec<u8> = Vec::new();
    moved.extend_from_slice(&[0x02, 0x01, 0x41, 0x00, 0x0b, 0x00, 0x01, 0x04]);
    moved.extend_from_slice(&[0x01, 0x00, 0x01, 0x05]);
    moved.extend_from_slice(&[0x02, 0x01, 0x41, 0x00, 0x0b, 0x00, 0x01, 0x04]);
    moved.extend_from_slice(&[0x03, 0x00, 0x01, 0x05]);
    moved.extend_from_slice(&[0x06, 0x01, 0x41, 0x01, 0x0b, 0x70, 0x01, 0xd2, 0x04, 0x0b]);
    moved.extend_from_slice(&[0x05, 0x70, 0x01, 0xd2, 0x05, 0x0b]);
    moved.extend_from_slice(&[0x06, 0x01, 0x41, 0x00, 0x0b, 0x70, 0x01, 0xd0, 0x70, 0x0b]);
    moved.extend_from_slice(&[0x07, 0x70, 0x01, 0xd2, 0x04, 0x0b]);
    assert_eq!(elements[elements.len() - moved.len()..].to_vec(), moved);
    assert_eq!(
        payload(&linked, SectionKind::Data),
        vec![
            0x06, 0x00, 0x41, 0x00, 0x0b, 0x01, 0xaa, 0x01, 0x01, 0xbb, 0x02, 0x00, 0x41, 0x00,
            0x0b, 0x01, 0xcc, 0x02, 0x01, 0x41, 0x00, 0x0b, 0x01, 0xaa, 0x01, 0x01, 0xbb, 0x02,
            0x01, 0x41, 0x00, 0x0b, 0x01, 0xcc,
        ]
    );
}

/// A module that imports `env.<import>` as a function `() -> i32` and
/// exports it again under `export`.
fn relay(import: &str, export: &str) -> Module {
    let mut imports = vec![0x01, 0x03, b'e', b'n', b'v', import.len() as u8];
    imports.extend_from_slice(import.as_bytes());
    imports.extend_from_slice(&[0x00, 0x00]);
    let mut exports = vec![0x01, export.len() as u8];
    exports.extend_from_slice(export.as_bytes());
    exports.extend_from_slice(&[0x00, 0x00]);
    Module {
        sections: vec![
            standard(SectionKind::Type, &[0x01, 0x60, 0x00, 0x01, 0x7f]),
            standard(SectionKind::Import, &imports),
            standard(SectionKind::Export, &exports),
        ],
    }
}

#[test]
fn an_import_bound_to_an_exported_import_follows_it() {
    wasmparser::validate(&encode(&relay("log", "relay"))).unwrap();
    // The import that is exported again stays an import of the result.
    let linked = compose(&vec![relay("log", "relay"), consumer("relay")], &auto()).unwrap();
    let imports = imports_of(&linked).unwrap();
    assert_eq!(imports.len(), 1);
    assert_eq!(imports[0].name, b"log".to_vec());
    let exports = exports_of(&linked).unwrap();
    let found: Vec<(Vec<u8>, u32)> = exports.iter().map(|e| (e.name.clone(), e.index)).collect();
    assert_eq!(found, vec![(b"relay".to_vec(), 0), (b"g".to_vec(), 1)]);
    assert_eq!(
        payload(&linked, SectionKind::Code),
        vec![0x01, 0x07, 0x00, 0x10, 0x00, 0x41, 0x01, 0x6a, 0x0b]
    );
    wasmparser::validate(&encode(&linked)).unwrap();
    let linked = compose(&vec![consumer("relay"), relay("log", "relay")], &auto()).unwrap();
    let exports = exports_of(&linked).unwrap();
    let found: Vec<(Vec<u8>, u32)> = exports.iter().map(|e| (e.name.clone(), e.index)).collect();
    assert_eq!(found, vec![(b"g".to_vec(), 1), (b"relay".to_vec(), 0)]);
    wasmparser::validate(&encode(&linked)).unwrap();
    // The import that is exported again is bound itself.
    let linked = compose(
        &vec![consumer("relay"), relay("log", "relay"), provider("log", 5)],
        &auto(),
    )
    .unwrap();
    assert_eq!(imports_of(&linked).unwrap(), Vec::new());
    let exports = exports_of(&linked).unwrap();
    let found: Vec<(Vec<u8>, u32)> = exports.iter().map(|e| (e.name.clone(), e.index)).collect();
    assert_eq!(
        found,
        vec![(b"g".to_vec(), 0), (b"relay".to_vec(), 1), (b"log".to_vec(), 1)]
    );
    assert_eq!(
        payload(&linked, SectionKind::Code),
        vec![0x02, 0x07, 0x00, 0x10, 0x01, 0x41, 0x01, 0x6a, 0x0b, 0x04, 0x00, 0x41, 0x05, 0x0b]
    );
    wasmparser::validate(&encode(&linked)).unwrap();
    // Through two modules that export their imports.
    let linked = compose(
        &vec![provider("log", 5), relay("log", "mid"), relay("mid", "relay"), consumer("relay")],
        &auto(),
    )
    .unwrap();
    assert_eq!(imports_of(&linked).unwrap(), Vec::new());
    assert_eq!(
        payload(&linked, SectionKind::Code),
        vec![0x02, 0x04, 0x00, 0x41, 0x05, 0x0b, 0x07, 0x00, 0x10, 0x00, 0x41, 0x01, 0x6a, 0x0b]
    );
    wasmparser::validate(&encode(&linked)).unwrap();
}

#[test]
fn bindings_that_go_round_are_refused() {
    assert_eq!(
        compose(&vec![relay("x", "y"), relay("y", "x")], &auto()),
        Err(LinkError::Unsupported { component: 1, reason: Refusal::EndlessBinding })
    );
    // The component that is named is the one at which the following stops.
    assert_eq!(
        compose(&vec![relay("x", "y"), relay("y", "x"), consumer("x")], &auto()),
        Err(LinkError::Unsupported { component: 0, reason: Refusal::EndlessBinding })
    );
    assert_eq!(
        compose(&vec![relay("x", "y"), relay("y", "z"), relay("z", "x")], &auto()),
        Err(LinkError::Unsupported { component: 2, reason: Refusal::EndlessBinding })
    );
}
