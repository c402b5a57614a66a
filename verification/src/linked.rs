//! What holds of a linked module: its import and export sections read back
//! as the imports that stayed external and the exports of the components,
//! its code section holds the rewritten bodies of the components, and a call
//! of an import that was bound is a call of what the export names.

use crate::catalog::{
    export_names_fit, exports_spec, import_wf, imports_spec, imports_wf, lemma_exports_from_wf,
    lemma_exports_round_trip, lemma_imports_from_wf, lemma_imports_round_trip,
    lemma_u32_round_trip, payload_of, section_index, u32_at, ExportEntryView, ExternKind,
    ImportEntryView,
};
use crate::composer::{
    assemble_front, assemble_spec, export_section, import_section, interface_spec,
    interfaces_spec, lemma_shapes_entries, link_resolved, shapes_spec,
};
use crate::layout::{
    count_in, layout_spec, lemma_bound_import_meets_export, lemma_shape_fits, shape_fits, Fault,
};
use crate::leb128::leb_encode;
use crate::merge::{
    added_exports, any_has, carried_section, data_count_section, kept_imports,
    lemma_exports_are_merged, linked_exports, linked_imports, merged_exports, merged_imports,
    merged_section, merged_start, moved_export, moved_import, section_of, with_section,
};
use crate::module::{ParseError, SectionKind, SectionView};
use crate::resolver::{binding_in_range, bindings_wf, Binding, InterfaceView};
use crate::rewrite::{instruction, EntryKind, IndexMapView, Space};
use vstd::prelude::*;

verus! {

/// The section is a section of the structural kind.
pub open spec fn is_of_kind(section: SectionView, kind: SectionKind) -> bool {
    section matches SectionView::Standard { kind: k, .. } && k == kind
}

/// The first section of a kind in a sequence with one more section behind
/// it is the first in the sequence, or else the one that was added.
pub proof fn lemma_section_index_push(
    sections: Seq<SectionView>,
    added: SectionView,
    kind: SectionKind,
    from: int,
)
    requires
        0 <= from <= sections.len(),
    ensures
        section_index(sections.push(added), kind, from) == (match section_index(
            sections,
            kind,
            from,
        ) {
            Some(i) => Some(i),
            None => if is_of_kind(added, kind) {
                Some(sections.len() as int)
            } else {
                None
            },
        }),
    decreases sections.len() - from,
{
    let longer = sections.push(added);
    if from < sections.len() {
        assert(longer[from] == sections[from]);
        lemma_section_index_push(sections, added, kind, from + 1);
    } else {
        assert(longer[from] == added);
        assert(section_index(longer, kind, from + 1) is None);
        assert(section_index(sections, kind, from) is None);
    }
}

/// Where the first section of a kind is found, a section of that kind stands.
pub proof fn lemma_section_index_found(sections: Seq<SectionView>, kind: SectionKind, from: int)
    ensures
        section_index(sections, kind, from) matches Some(i) ==> from <= i < sections.len()
            && is_of_kind(sections[i], kind),
    decreases sections.len() - from,
{
    if 0 <= from < sections.len() {
        lemma_section_index_found(sections, kind, from + 1);
    }
}

/// The payload of the first section of a kind in a sequence with maybe one
/// more section behind it.
pub proof fn lemma_payload_with_section(
    sections: Seq<SectionView>,
    added: Option<SectionView>,
    kind: SectionKind,
)
    ensures
        payload_of(with_section(sections, added), kind) == (match payload_of(sections, kind) {
            Some(payload) => Some(payload),
            None => match added {
                Some(SectionView::Standard { kind: k, payload }) => if k == kind {
                    Some(payload)
                } else {
                    None
                },
                _ => None,
            },
        }),
{
    lemma_section_index_found(sections, kind, 0);
    match added {
        Some(section) => {
            lemma_section_index_push(sections, section, kind, 0);
            let longer = sections.push(section);
            match section_index(sections, kind, 0) {
                Some(i) => {
                    assert(longer[i] == sections[i]);
                },
                None => {
                    assert(longer[sections.len() as int] == section);
                },
            }
        },
        None => {},
    }
}

/// A merged section is of the kind that holds the entries.
pub proof fn lemma_merged_section_kind(
    kind: EntryKind,
    modules: Seq<Seq<SectionView>>,
    maps: Seq<IndexMapView>,
)
    ensures
        merged_section(kind, modules, maps) matches Ok(Some(section)) ==> is_of_kind(
            section,
            section_of(kind),
        ),
{
}

/// The start section of a linked module is a start section.
pub proof fn lemma_merged_start_kind(
    modules: Seq<Seq<SectionView>>,
    maps: Seq<IndexMapView>,
    from: int,
)
    ensures
        merged_start(modules, maps, from) matches Ok(Some(section)) ==> is_of_kind(
            section,
            SectionKind::Start,
        ),
    decreases modules.len() - from,
{
    if 0 <= from < modules.len() {
        lemma_merged_start_kind(modules, maps, from + 1);
    }
}

/// An import as it stands in the linked module can be written and read back
/// if it could before.
pub proof fn lemma_moved_import_wf(entry: ImportEntryView, map: IndexMapView)
    requires
        import_wf(entry),
    ensures
        moved_import(entry, map) matches Ok(moved) ==> import_wf(moved) && moved.kind
            == entry.kind && moved.name == entry.name && moved.module == entry.module,
{
    if let Ok(moved) = moved_import(entry, map) {
        if entry.kind == ExternKind::Function {
            let target = crate::rewrite::type_target(map, u32_at(entry.descriptor, 0)->Ok_0.0)->0;
            let bytes = leb_encode(target as nat);
            assert(bytes.subrange(0, bytes.len() as int) =~= bytes);
            lemma_u32_round_trip(bytes, 0, target);
        }
    }
}

/// The imports that a component keeps can be written and read back.
pub proof fn lemma_kept_imports_wf(
    interfaces: Seq<InterfaceView>,
    bindings: Seq<Seq<Binding>>,
    maps: Seq<IndexMapView>,
    k: int,
    upto: int,
)
    requires
        0 <= upto <= interfaces[k].imports.len(),
        imports_wf(interfaces[k].imports),
    ensures
        kept_imports(interfaces, bindings, maps, k, upto) matches Ok(kept) ==> imports_wf(kept),
    decreases upto,
{
    if upto > 0 {
        lemma_kept_imports_wf(interfaces, bindings, maps, k, upto - 1);
        lemma_moved_import_wf(interfaces[k].imports[upto - 1], maps[k]);
    }
}

/// The imports of every component can be written and read back, and the
/// names of its exports fit in 32 bits.
pub open spec fn interfaces_wf(interfaces: Seq<InterfaceView>) -> bool {
    forall|k: int|
        0 <= k < interfaces.len() ==> imports_wf((#[trigger] interfaces[k]).imports)
            && export_names_fit(interfaces[k].exports)
}

/// The imports of a linked module can be written and read back.
pub proof fn lemma_merged_imports_wf(
    interfaces: Seq<InterfaceView>,
    bindings: Seq<Seq<Binding>>,
    maps: Seq<IndexMapView>,
    upto: int,
)
    requires
        0 <= upto <= interfaces.len(),
        interfaces_wf(interfaces),
    ensures
        merged_imports(interfaces, bindings, maps, upto) matches Ok(imports) ==> imports_wf(
            imports,
        ),
    decreases upto,
{
    if upto > 0 {
        lemma_merged_imports_wf(interfaces, bindings, maps, upto - 1);
        lemma_kept_imports_wf(
            interfaces,
            bindings,
            maps,
            upto - 1,
            interfaces[upto - 1].imports.len() as int,
        );
    }
}

proof fn lemma_added_exports_fit(
    found: Seq<ExportEntryView>,
    interfaces: Seq<InterfaceView>,
    maps: Seq<IndexMapView>,
    k: int,
    upto: int,
)
    requires
        0 <= upto <= interfaces[k].exports.len(),
        export_names_fit(found),
        export_names_fit(interfaces[k].exports),
    ensures
        added_exports(found, interfaces, maps, k, upto) matches Ok(exports) ==> export_names_fit(
            exports,
        ),
    decreases upto,
{
    if upto > 0 {
        lemma_added_exports_fit(found, interfaces, maps, k, upto - 1);
    }
}

/// The names of the exports of a linked module fit in 32 bits.
pub proof fn lemma_merged_exports_fit(
    interfaces: Seq<InterfaceView>,
    maps: Seq<IndexMapView>,
    upto: int,
)
    requires
        0 <= upto <= interfaces.len(),
        interfaces_wf(interfaces),
    ensures
        merged_exports(interfaces, maps, upto) matches Ok(exports) ==> export_names_fit(exports),
    decreases upto,
{
    if upto > 0 {
        lemma_merged_exports_fit(interfaces, maps, upto - 1);
        if let Ok(before) = merged_exports(interfaces, maps, upto - 1) {
            lemma_added_exports_fit(
                before,
                interfaces,
                maps,
                upto - 1,
                interfaces[upto - 1].exports.len() as int,
            );
        }
    }
}

/// What was read from modules can be written and read back.
pub proof fn lemma_interfaces_wf(modules: Seq<Seq<SectionView>>, upto: int)
    requires
        0 <= upto <= modules.len(),
    ensures
        interfaces_spec(modules, upto) matches Ok(interfaces) ==> interfaces.len() == upto
            && interfaces_wf(interfaces) && forall|k: int|
            0 <= k < upto ==> #[trigger] interface_spec(modules[k]) == Ok::<
                InterfaceView,
                ParseError,
            >(interfaces[k]),
    decreases upto,
{
    if upto > 0 {
        lemma_interfaces_wf(modules, upto - 1);
        if let Ok(interface) = interface_spec(modules[upto - 1]) {
            let sections = modules[upto - 1];
            if let Some(payload) = payload_of(sections, SectionKind::Import) {
                let (count, start) = u32_at(payload, 0)->Ok_0;
                lemma_imports_from_wf(payload, start, count as nat);
            }
            if let Some(payload) = payload_of(sections, SectionKind::Export) {
                let (count, start) = u32_at(payload, 0)->Ok_0;
                lemma_exports_from_wf(payload, start, count as nat);
            }
        }
    }
}

/// Where no component has a section of a kind, no component has a payload of
/// that kind.
pub proof fn lemma_nothing_carried(kind: SectionKind, modules: Seq<Seq<SectionView>>, from: int)
    requires
        0 <= from,
        carried_section(kind, modules, from) is None,
    ensures
        forall|k: int| from <= k < modules.len() ==> payload_of(#[trigger] modules[k], kind) is None,
    decreases modules.len() - from,
{
    if from < modules.len() {
        lemma_nothing_carried(kind, modules, from + 1);
    }
}

proof fn lemma_no_imports_merged(
    interfaces: Seq<InterfaceView>,
    bindings: Seq<Seq<Binding>>,
    maps: Seq<IndexMapView>,
    upto: int,
)
    requires
        0 <= upto <= interfaces.len(),
        forall|k: int| 0 <= k < interfaces.len() ==> (#[trigger] interfaces[k]).imports.len() == 0,
    ensures
        merged_imports(interfaces, bindings, maps, upto) == Ok::<Seq<ImportEntryView>, Fault>(
            Seq::empty(),
        ),
    decreases upto,
{
    if upto > 0 {
        lemma_no_imports_merged(interfaces, bindings, maps, upto - 1);
        let kept = kept_imports(interfaces, bindings, maps, upto - 1, 0);
        assert(Seq::<ImportEntryView>::empty() + Seq::<ImportEntryView>::empty()
            =~= Seq::<ImportEntryView>::empty());
    }
}

proof fn lemma_no_exports_merged(
    interfaces: Seq<InterfaceView>,
    maps: Seq<IndexMapView>,
    upto: int,
)
    requires
        0 <= upto <= interfaces.len(),
        forall|k: int| 0 <= k < interfaces.len() ==> (#[trigger] interfaces[k]).exports.len() == 0,
    ensures
        merged_exports(interfaces, maps, upto) == Ok::<Seq<ExportEntryView>, Fault>(Seq::empty()),
    decreases upto,
{
    if upto > 0 {
        lemma_no_exports_merged(interfaces, maps, upto - 1);
    }
}

/// The linked module offers and asks what the composition decided: its
/// import section reads back as the imports that stayed external, and its
/// export section as the exports of the components with their new indices.
pub proof fn lemma_linked_interface(
    modules: Seq<Seq<SectionView>>,
    interfaces: Seq<InterfaceView>,
    bindings: Seq<Seq<Binding>>,
    maps: Seq<IndexMapView>,
)
    requires
        interfaces_spec(modules, modules.len() as int) == Ok::<Seq<InterfaceView>, Fault>(
            interfaces,
        ),
        assemble_spec(modules, interfaces, bindings, maps) is Ok,
    ensures
        imports_spec(assemble_spec(modules, interfaces, bindings, maps)->Ok_0) == Ok::<
            Seq<ImportEntryView>,
            ParseError,
        >(linked_imports(interfaces, bindings, maps)->Ok_0),
        exports_spec(assemble_spec(modules, interfaces, bindings, maps)->Ok_0) == Ok::<
            Seq<ExportEntryView>,
            ParseError,
        >(linked_exports(interfaces, maps)->Ok_0),
{
    let all = interfaces.len() as int;
    lemma_interfaces_wf(modules, modules.len() as int);
    let imports = linked_imports(interfaces, bindings, maps)->Ok_0;
    let exports = linked_exports(interfaces, maps)->Ok_0;
    lemma_merged_imports_wf(interfaces, bindings, maps, all);
    lemma_merged_exports_fit(interfaces, maps, all);
    lemma_imports_round_trip(imports);
    lemma_exports_round_trip(exports);
    if !any_has(SectionKind::Import, modules) {
        lemma_nothing_carried(SectionKind::Import, modules, 0);
        assert forall|k: int| 0 <= k < interfaces.len() implies (#[trigger] interfaces[k]).imports.len()
            == 0 by {
            assert(interface_spec(modules[k]) == Ok::<InterfaceView, ParseError>(interfaces[k]));
        }
        lemma_no_imports_merged(interfaces, bindings, maps, all);
    }
    if !any_has(SectionKind::Export, modules) {
        lemma_nothing_carried(SectionKind::Export, modules, 0);
        assert forall|k: int| 0 <= k < interfaces.len() implies (#[trigger] interfaces[k]).exports.len()
            == 0 by {
            assert(interface_spec(modules[k]) == Ok::<InterfaceView, ParseError>(interfaces[k]));
        }
        lemma_no_exports_merged(interfaces, maps, all);
    }
    lemma_linked_sections(modules, interfaces, bindings, maps, SectionKind::Import);
    lemma_linked_sections(modules, interfaces, bindings, maps, SectionKind::Export);
}

/// The code section of the linked module holds the function bodies of the
/// components, one component after the other, each rewritten with the map
/// of its component.
pub proof fn lemma_linked_code(
    modules: Seq<Seq<SectionView>>,
    interfaces: Seq<InterfaceView>,
    bindings: Seq<Seq<Binding>>,
    maps: Seq<IndexMapView>,
)
    requires
        assemble_spec(modules, interfaces, bindings, maps) is Ok,
    ensures
        merged_section(EntryKind::Body, modules, maps) matches Ok(code) && payload_of(
            assemble_spec(modules, interfaces, bindings, maps)->Ok_0,
            SectionKind::Code,
        ) == payload_if_any(code),
{
    lemma_linked_sections(modules, interfaces, bindings, maps, SectionKind::Code);
}

/// The section of imports, of exports or of code that the linked module is
/// put together from.
spec fn section_put(
    modules: Seq<Seq<SectionView>>,
    interfaces: Seq<InterfaceView>,
    bindings: Seq<Seq<Binding>>,
    maps: Seq<IndexMapView>,
    kind: SectionKind,
) -> Option<SectionView> {
    if kind == SectionKind::Import {
        import_section(modules, linked_imports(interfaces, bindings, maps)->Ok_0)
    } else if kind == SectionKind::Export {
        export_section(modules, linked_exports(interfaces, maps)->Ok_0)
    } else {
        merged_section(EntryKind::Body, modules, maps)->Ok_0
    }
}

/// The payload of the import section, of the export section and of the code
/// section of the linked module is that of the section that was put there.
proof fn lemma_linked_sections(
    modules: Seq<Seq<SectionView>>,
    interfaces: Seq<InterfaceView>,
    bindings: Seq<Seq<Binding>>,
    maps: Seq<IndexMapView>,
    kind: SectionKind,
)
    requires
        assemble_spec(modules, interfaces, bindings, maps) is Ok,
        kind == SectionKind::Import || kind == SectionKind::Export || kind == SectionKind::Code,
    ensures
        merged_section(EntryKind::Body, modules, maps) is Ok,
        payload_of(assemble_spec(modules, interfaces, bindings, maps)->Ok_0, kind)
            == payload_if_any(section_put(modules, interfaces, bindings, maps, kind)),
{
    let imports = linked_imports(interfaces, bindings, maps)->Ok_0;
    let exports = linked_exports(interfaces, maps)->Ok_0;
    let types = merged_section(EntryKind::Type, modules, maps)->Ok_0;
    let functions = merged_section(EntryKind::Function, modules, maps)->Ok_0;
    let tables = merged_section(EntryKind::Table, modules, maps)->Ok_0;
    let memory = merged_section(EntryKind::Memory, modules, maps)->Ok_0;
    let globals = merged_section(EntryKind::Global, modules, maps)->Ok_0;
    let start = merged_start(modules, maps, 0)->Ok_0;
    let elements = merged_section(EntryKind::Element, modules, maps)->Ok_0;
    let data_count = data_count_section(modules, maps);
    let code = merged_section(EntryKind::Body, modules, maps)->Ok_0;
    let data = merged_section(EntryKind::Data, modules, maps)->Ok_0;
    lemma_merged_section_kind(EntryKind::Type, modules, maps);
    lemma_merged_section_kind(EntryKind::Function, modules, maps);
    lemma_merged_section_kind(EntryKind::Table, modules, maps);
    lemma_merged_section_kind(EntryKind::Memory, modules, maps);
    lemma_merged_section_kind(EntryKind::Global, modules, maps);
    lemma_merged_start_kind(modules, maps, 0);
    lemma_merged_section_kind(EntryKind::Element, modules, maps);
    lemma_merged_section_kind(EntryKind::Body, modules, maps);
    lemma_merged_section_kind(EntryKind::Data, modules, maps);
    let s0 = Seq::<SectionView>::empty();
    let s1 = with_section(s0, types);
    let s2 = with_section(s1, import_section(modules, imports));
    let s3 = with_section(s2, functions);
    let s4 = with_section(s3, tables);
    let s5 = with_section(s4, memory);
    let s6 = with_section(s5, globals);
    let s7 = with_section(s6, export_section(modules, exports));
    let s8 = with_section(s7, start);
    let s9 = with_section(s8, elements);
    let s10 = with_section(s9, data_count);
    let s11 = with_section(s10, code);
    let s12 = with_section(s11, data);
    assert(assemble_front(modules, interfaces, bindings, maps) == Ok::<Seq<SectionView>, Fault>(
        s6,
    ));
    assert(assemble_spec(modules, interfaces, bindings, maps) == Ok::<Seq<SectionView>, Fault>(
        s12,
    ));
    lemma_payload_with_section(s0, types, kind);
    lemma_payload_with_section(s1, import_section(modules, imports), kind);
    lemma_payload_with_section(s2, functions, kind);
    lemma_payload_with_section(s3, tables, kind);
    lemma_payload_with_section(s4, memory, kind);
    lemma_payload_with_section(s5, globals, kind);
    lemma_payload_with_section(s6, export_section(modules, exports), kind);
    lemma_payload_with_section(s7, start, kind);
    lemma_payload_with_section(s8, elements, kind);
    lemma_payload_with_section(s9, data_count, kind);
    lemma_payload_with_section(s10, code, kind);
    lemma_payload_with_section(s11, data, kind);
}

/// The payload of a section that may be missing.
pub open spec fn payload_if_any(section: Option<SectionView>) -> Option<Seq<u8>> {
    match section {
        Some(SectionView::Standard { payload, .. }) => Some(payload),
        _ => None,
    }
}

/// A call of an import that was bound is a call of what the export names.
///
/// Let the linked module exist, and let a component import a function that
/// is bound to an export of a component. Then the code section of the linked
/// module holds the bodies of the components, rewritten with their maps; the
/// linked module has an export of this name, which names a function; and
/// wherever the importing component calls its import, the instruction is
/// rewritten to a call of the function that this export of the linked module
/// names. A component knows its import under the number of the functions
/// that it imports before it.
pub proof fn lemma_calls_reach_exports(
    modules: Seq<Seq<SectionView>>,
    interfaces: Seq<InterfaceView>,
    bindings: Seq<Seq<Binding>>,
    k: int,
    j: int,
    s: Seq<u8>,
    pos: int,
)
    requires
        interfaces_spec(modules, modules.len() as int) == Ok::<Seq<InterfaceView>, Fault>(
            interfaces,
        ),
        bindings_wf(bindings, interfaces),
        link_resolved(modules, interfaces, bindings) is Ok,
        0 <= k < interfaces.len(),
        0 <= j < interfaces[k].imports.len(),
        interfaces[k].imports[j].kind == ExternKind::Function,
        bindings[k][j] is Internal,
        0 <= pos < s.len(),
        s[pos] == 0x10,
        u32_at(s, pos + 1) matches Ok((called, _)) && called == count_in(
            interfaces[k].imports,
            Space::Function,
            j,
        ),
    ensures
        ({
            let shapes = shapes_spec(modules, interfaces, bindings, modules.len() as int)->Ok_0;
            let maps = layout_spec(shapes, interfaces, bindings)->Ok_0;
            let linked = link_resolved(modules, interfaces, bindings)->Ok_0;
            let source = interfaces[bindings[k][j]->component as int].exports[bindings[k][j]->export as int];
            &&& merged_section(EntryKind::Body, modules, maps) matches Ok(code) && payload_of(
                linked,
                SectionKind::Code,
            ) == payload_if_any(code)
            &&& exports_spec(linked) is Ok
            &&& exists|i: int|
                0 <= i < exports_spec(linked)->Ok_0.len() && {
                    let export = #[trigger] exports_spec(linked)->Ok_0[i];
                    &&& export.name == source.name
                    &&& export.kind == ExternKind::Function
                    &&& instruction(s, pos, maps[k]) == Ok::<(Seq<u8>, int), ParseError>(
                        (seq![0x10u8] + leb_encode(export.index as nat), u32_at(s, pos + 1)->Ok_0.1),
                    )
                }
        }),
{
    let all = modules.len() as int;
    lemma_interfaces_wf(modules, all);
    let shapes = shapes_spec(modules, interfaces, bindings, all)->Ok_0;
    let maps = layout_spec(shapes, interfaces, bindings)->Ok_0;
    let linked = link_resolved(modules, interfaces, bindings)->Ok_0;
    lemma_shapes_entries(modules, interfaces, bindings, all);
    assert forall|c: int| 0 <= c < shapes.len() implies shape_fits(
        #[trigger] shapes[c],
        interfaces[c].imports,
        bindings[c],
    ) by {
        lemma_shape_fits(modules[c], interfaces[c].imports, bindings[c]);
    }
    lemma_bound_import_meets_export(shapes, interfaces, bindings, k, j, Space::Function);
    lemma_linked_interface(modules, interfaces, bindings, maps);
    lemma_linked_code(modules, interfaces, bindings, maps);
    assert(binding_in_range(bindings[k][j], interfaces));
    let component = bindings[k][j]->component as int;
    let source = interfaces[component].exports[bindings[k][j]->export as int];
    lemma_exports_are_merged(
        interfaces,
        maps,
        component,
        bindings[k][j]->export as int,
        interfaces.len() as int,
    );
    let moved = moved_export(source, maps[component])->Ok_0;
    let exports = linked_exports(interfaces, maps)->Ok_0;
    let i = choose|i: int| 0 <= i < exports.len() && exports[i] == moved;
    assert(exports_spec(linked)->Ok_0[i] == moved);
}

} // verus!
