//! The merge: the sections of the linked module, built from the sections of
//! the components and their index maps.
//!
//! Sections of one structural kind are concatenated in the order of the
//! components, and every reference into an index space is replaced by its
//! new index on the way. Custom sections are not carried over.

use crate::catalog::{
    error_at, payload_of, read_u32, section_payload, u32_at, ExportEntry, ExportEntryView,
    ExternKind, ImportEntry, ImportEntryView,
};
use crate::layout::{
    count_in, count_unbound, data_count_index, externals_before, find_data_count, kind_space,
    shape_fits, shapes_fit, space_of_kind, Defect, Fault, Refusal, Shape, DATA_COUNT_ID,
};
use crate::leb128::{leb_encode, write_uleb128};
use crate::module::{
    copy_bytes, views, Module, ParseError, ParseErrorReason, Section, SectionKind, SectionView,
};
use crate::optimizer::same_bytes;
use crate::resolver::{Binding, Interface, InterfaceView};
use crate::rewrite::{
    function_target, rewrite_vector, target, type_target, vector, EntryKind, IndexMap,
    IndexMapView, Space,
};
use vstd::prelude::*;

verus! {

/// The section kind that holds entries of the given kind.
pub open spec fn section_of(kind: EntryKind) -> SectionKind {
    match kind {
        EntryKind::Type => SectionKind::Type,
        EntryKind::Function => SectionKind::Function,
        EntryKind::Table => SectionKind::Table,
        EntryKind::Global => SectionKind::Global,
        EntryKind::Element => SectionKind::Element,
        EntryKind::Body => SectionKind::Code,
        EntryKind::Memory => SectionKind::Memory,
        EntryKind::Data => SectionKind::Data,
    }
}

/// The fault of a component that holds something that cannot be read.
pub open spec fn malformed(component: int, error: ParseError) -> Fault {
    Fault::Component { component: component as usize, defect: Defect::Malformed(error) }
}

/// Entries gathered from several components.
pub struct Gathered {
    /// Whether any component had a section of the kind.
    pub present: bool,
    /// The number of entries.
    pub count: nat,
    /// The bytes of the entries.
    pub bytes: Seq<u8>,
}

/// The entries of the given kind of the first `upto` components, each
/// rewritten with the map of its component, one after the other.
pub open spec fn gathered(
    kind: EntryKind,
    modules: Seq<Seq<SectionView>>,
    maps: Seq<IndexMapView>,
    upto: int,
) -> Result<Gathered, Fault>
    decreases upto,
{
    if upto <= 0 || upto > modules.len() {
        Ok(Gathered { present: false, count: 0, bytes: Seq::empty() })
    } else {
        match gathered(kind, modules, maps, upto - 1) {
            Err(fault) => Err(fault),
            Ok(before) => match payload_of(modules[upto - 1], section_of(kind)) {
                None => Ok(before),
                Some(payload) => match vector(kind, payload, maps[upto - 1]) {
                    Err(e) => Err(malformed(upto - 1, e)),
                    Ok((count, bytes)) => Ok(
                        Gathered {
                            present: true,
                            count: before.count + count as nat,
                            bytes: before.bytes + bytes,
                        },
                    ),
                },
            },
        }
    }
}

/// The section of the linked module that holds the entries of the given
/// kind: none when no component has such a section.
pub open spec fn merged_section(
    kind: EntryKind,
    modules: Seq<Seq<SectionView>>,
    maps: Seq<IndexMapView>,
) -> Result<Option<SectionView>, Fault> {
    match gathered(kind, modules, maps, modules.len() as int) {
        Err(fault) => Err(fault),
        Ok(all) => if !all.present {
            Ok(None)
        } else if all.count > u32::MAX {
            Err(Fault::TooManyItems)
        } else {
            Ok(
                Some(
                    SectionView::Standard {
                        kind: section_of(kind),
                        payload: leb_encode(all.count) + all.bytes,
                    },
                ),
            )
        },
    }
}

/// The first section of a structural kind among the components from `from`
/// on, as it is.
pub open spec fn carried_section(kind: SectionKind, modules: Seq<Seq<SectionView>>, from: int)
    -> Option<SectionView>
    decreases modules.len() - from,
{
    if from < 0 || from >= modules.len() {
        None
    } else {
        match payload_of(modules[from], kind) {
            Some(payload) => Some(SectionView::Standard { kind, payload }),
            None => carried_section(kind, modules, from + 1),
        }
    }
}

/// The first data count section among the components from `from` on.
pub open spec fn carried_data_count(modules: Seq<Seq<SectionView>>, from: int) -> Option<
    SectionView,
>
    decreases modules.len() - from,
{
    if from < 0 || from >= modules.len() {
        None
    } else {
        match data_count_index(modules[from], 0) {
            Some(i) => Some(modules[from][i]),
            None => carried_data_count(modules, from + 1),
        }
    }
}

/// The number of data segments of the linked module: where the last
/// component's data segments end.
pub open spec fn data_total(maps: Seq<IndexMapView>) -> nat {
    if maps.len() == 0 {
        0
    } else {
        (maps.last().data.first_defined + maps.last().data.defined) as nat
    }
}

/// The data count section of the linked module: none when no component has
/// one, otherwise the number of data segments of the linked module.
pub open spec fn data_count_section(modules: Seq<Seq<SectionView>>, maps: Seq<IndexMapView>)
    -> Option<SectionView> {
    if carried_data_count(modules, 0) is Some {
        Some(SectionView::Unknown { id: DATA_COUNT_ID, payload: leb_encode(data_total(maps)) })
    } else {
        None
    }
}

/// An import as it stands in the linked module: the type index of a function
/// import is moved, everything else stays.
pub open spec fn moved_import(entry: ImportEntryView, map: IndexMapView) -> Result<
    ImportEntryView,
    ParseError,
> {
    if entry.kind != ExternKind::Function {
        Ok(entry)
    } else {
        match u32_at(entry.descriptor, 0) {
            Err(e) => Err(e),
            Ok((index, end)) => match type_target(map, index) {
                None => Err(error_at(0, ParseErrorReason::OutOfRange)),
                Some(target) => Ok(
                    ImportEntryView { descriptor: leb_encode(target as nat), ..entry },
                ),
            },
        }
    }
}

/// The imports among the first `upto` imports of the component `k` that stay
/// imports, as they stand in the linked module.
pub open spec fn kept_imports(
    interfaces: Seq<InterfaceView>,
    bindings: Seq<Seq<Binding>>,
    maps: Seq<IndexMapView>,
    k: int,
    upto: int,
) -> Result<Seq<ImportEntryView>, Fault>
    decreases upto,
{
    if upto <= 0 || upto > interfaces[k].imports.len() {
        Ok(Seq::empty())
    } else {
        match kept_imports(interfaces, bindings, maps, k, upto - 1) {
            Err(fault) => Err(fault),
            Ok(before) => if bindings[k][upto - 1] is Internal {
                Ok(before)
            } else {
                match moved_import(interfaces[k].imports[upto - 1], maps[k]) {
                    Err(e) => Err(malformed(k, e)),
                    Ok(entry) => Ok(before.push(entry)),
                }
            },
        }
    }
}

/// The imports of the linked module: those of the first `upto` components
/// that stay imports, in the order of the components and of their imports.
pub open spec fn merged_imports(
    interfaces: Seq<InterfaceView>,
    bindings: Seq<Seq<Binding>>,
    maps: Seq<IndexMapView>,
    upto: int,
) -> Result<Seq<ImportEntryView>, Fault>
    decreases upto,
{
    if upto <= 0 || upto > interfaces.len() {
        Ok(Seq::empty())
    } else {
        match merged_imports(interfaces, bindings, maps, upto - 1) {
            Err(fault) => Err(fault),
            Ok(before) => match kept_imports(
                interfaces,
                bindings,
                maps,
                upto - 1,
                interfaces[upto - 1].imports.len() as int,
            ) {
                Err(fault) => Err(fault),
                Ok(kept) => Ok(before + kept),
            },
        }
    }
}

/// The imports of the linked module, which must be few enough for a count
/// of 32 bits.
pub open spec fn linked_imports(
    interfaces: Seq<InterfaceView>,
    bindings: Seq<Seq<Binding>>,
    maps: Seq<IndexMapView>,
) -> Result<Seq<ImportEntryView>, Fault> {
    match merged_imports(interfaces, bindings, maps, interfaces.len() as int) {
        Err(fault) => Err(fault),
        Ok(imports) => if imports.len() > u32::MAX {
            Err(Fault::TooManyItems)
        } else {
            Ok(imports)
        },
    }
}

/// An export as it stands in the linked module: its index is replaced by
/// the new index of what it names. An export of a tag names nothing here.
pub open spec fn moved_export(entry: ExportEntryView, map: IndexMapView) -> Result<
    ExportEntryView,
    ParseError,
> {
    match kind_space(entry.kind) {
        None => Err(error_at(0, ParseErrorReason::OutOfRange)),
        Some(space) => match target(map, space, entry.index) {
            None => Err(error_at(0, ParseErrorReason::OutOfRange)),
            Some(new) => Ok(ExportEntryView { index: new, ..entry }),
        },
    }
}

/// One of the exports bears the name.
pub open spec fn exports_name(exports: Seq<ExportEntryView>, name: Seq<u8>) -> bool {
    exists|i: int| 0 <= i < exports.len() && (#[trigger] exports[i]).name == name
}

/// `found` with the first `upto` exports of the component `k` behind it, as
/// they stand in the linked module. A name that is exported already is a
/// fault of the component.
pub open spec fn added_exports(
    found: Seq<ExportEntryView>,
    interfaces: Seq<InterfaceView>,
    maps: Seq<IndexMapView>,
    k: int,
    upto: int,
) -> Result<Seq<ExportEntryView>, Fault>
    decreases upto,
{
    if upto <= 0 || upto > interfaces[k].exports.len() {
        Ok(found)
    } else {
        match added_exports(found, interfaces, maps, k, upto - 1) {
            Err(fault) => Err(fault),
            Ok(before) => if exports_name(before, interfaces[k].exports[upto - 1].name) {
                Err(
                    Fault::Component {
                        component: k as usize,
                        defect: Defect::Unsupported(Refusal::RepeatedExport),
                    },
                )
            } else {
                match moved_export(interfaces[k].exports[upto - 1], maps[k]) {
                    Err(e) => Err(malformed(k, e)),
                    Ok(entry) => Ok(before.push(entry)),
                }
            },
        }
    }
}

/// The exports of the linked module: those of the first `upto` components,
/// in the order of the components and of their exports.
pub open spec fn merged_exports(
    interfaces: Seq<InterfaceView>,
    maps: Seq<IndexMapView>,
    upto: int,
) -> Result<Seq<ExportEntryView>, Fault>
    decreases upto,
{
    if upto <= 0 || upto > interfaces.len() {
        Ok(Seq::empty())
    } else {
        match merged_exports(interfaces, maps, upto - 1) {
            Err(fault) => Err(fault),
            Ok(before) => added_exports(
                before,
                interfaces,
                maps,
                upto - 1,
                interfaces[upto - 1].exports.len() as int,
            ),
        }
    }
}

/// The exports of the linked module, which must be few enough for a count
/// of 32 bits.
pub open spec fn linked_exports(interfaces: Seq<InterfaceView>, maps: Seq<IndexMapView>) -> Result<
    Seq<ExportEntryView>,
    Fault,
> {
    match merged_exports(interfaces, maps, interfaces.len() as int) {
        Err(fault) => Err(fault),
        Ok(exports) => if exports.len() > u32::MAX {
            Err(Fault::TooManyItems)
        } else {
            Ok(exports)
        },
    }
}

/// Some component has a section of the structural kind.
pub open spec fn any_has(kind: SectionKind, modules: Seq<Seq<SectionView>>) -> bool {
    carried_section(kind, modules, 0) is Some
}

/// The start section of the linked module: that of the first component from
/// `from` on that has one, with the new index of its function.
pub open spec fn merged_start(
    modules: Seq<Seq<SectionView>>,
    maps: Seq<IndexMapView>,
    from: int,
) -> Result<Option<SectionView>, Fault>
    decreases modules.len() - from,
{
    if from < 0 || from >= modules.len() {
        Ok(None)
    } else {
        match payload_of(modules[from], SectionKind::Start) {
            None => merged_start(modules, maps, from + 1),
            Some(payload) => match u32_at(payload, 0) {
                Err(e) => Err(malformed(from, e)),
                Ok((index, end)) => if end != payload.len() {
                    Err(malformed(from, error_at(end, ParseErrorReason::TrailingBytes)))
                } else {
                    match function_target(maps[from], index) {
                        None => Err(malformed(from, error_at(0, ParseErrorReason::OutOfRange))),
                        Some(target) => Ok(
                            Some(
                                SectionView::Standard {
                                    kind: SectionKind::Start,
                                    payload: leb_encode(target as nat),
                                },
                            ),
                        ),
                    }
                },
            },
        }
    }
}

/// `sections` with one more section behind them, if there is one.
pub open spec fn with_section(sections: Seq<SectionView>, section: Option<SectionView>) -> Seq<
    SectionView,
> {
    match section {
        Some(s) => sections.push(s),
        None => sections,
    }
}

fn malformed_in(component: usize, error: ParseError) -> (r: Fault)
    ensures
        r == malformed(component as int, error),
{
    Fault::Component { component, defect: Defect::Malformed(error) }
}

fn section_kind_of(kind: EntryKind) -> (r: SectionKind)
    ensures
        r == section_of(kind),
{
    match kind {
        EntryKind::Type => SectionKind::Type,
        EntryKind::Function => SectionKind::Function,
        EntryKind::Table => SectionKind::Table,
        EntryKind::Global => SectionKind::Global,
        EntryKind::Element => SectionKind::Element,
        EntryKind::Body => SectionKind::Code,
        EntryKind::Memory => SectionKind::Memory,
        EntryKind::Data => SectionKind::Data,
    }
}

/// Builds the section of the linked module that holds the entries of the
/// given kind.
pub fn merge_entries(kind: EntryKind, modules: &Vec<Module>, maps: &Vec<IndexMap>) -> (r: Result<
    Option<Section>,
    Fault,
>)
    requires
        maps@.len() == modules@.len(),
    ensures
        match r {
            Ok(Some(section)) => merged_section(kind, views(modules@), views(maps@)) == Ok::<
                Option<SectionView>,
                Fault,
            >(Some(section@)),
            Ok(None) => merged_section(kind, views(modules@), views(maps@)) == Ok::<
                Option<SectionView>,
                Fault,
            >(None),
            Err(fault) => merged_section(kind, views(modules@), views(maps@)) == Err::<
                Option<SectionView>,
                Fault,
            >(fault),
        },
{
    let ghost lists = views(modules@);
    let ghost tables = views(maps@);
    let section_kind = section_kind_of(kind);
    let mut present = false;
    let mut count: u64 = 0;
    let mut bytes: Vec<u8> = Vec::new();
    let mut k: usize = 0;
    while k < modules.len()
        invariant
            k <= modules@.len(),
            maps@.len() == modules@.len(),
            lists == views(modules@),
            tables == views(maps@),
            section_kind == section_of(kind),
            count <= u32::MAX as u64 + 1,
            gathered(kind, lists, tables, k as int) matches Ok(found) && found.present == present
                && found.bytes == bytes@ && (if count <= u32::MAX {
                found.count == count
            } else {
                found.count > u32::MAX
            }),
        decreases modules@.len() - k,
    {
        proof {
            assert(lists[k as int] == modules@[k as int]@);
            assert(tables[k as int] == maps@[k as int]@);
        }
        match section_payload(&modules[k], section_kind) {
            None => {},
            Some(payload) => {
                match rewrite_vector(kind, &mut bytes, payload.as_slice(), &maps[k]) {
                    Err(e) => {
                        proof {
                            lemma_gathered_fails(kind, lists, tables, k as int, lists.len() as int);
                        }
                        return Err(malformed_in(k, e));
                    },
                    Ok(n) => {
                        present = true;
                        if count <= u32::MAX as u64 {
                            count = count + n as u64;
                            if count > u32::MAX as u64 {
                                count = u32::MAX as u64 + 1;
                            }
                        }
                    },
                }
            },
        }
        k += 1;
    }
    if !present {
        return Ok(None);
    }
    if count > u32::MAX as u64 {
        return Err(Fault::TooManyItems);
    }
    let mut payload: Vec<u8> = Vec::new();
    write_uleb128(&mut payload, count);
    crate::codec::append_bytes(&mut payload, bytes.as_slice());
    proof {
        assert(payload@ =~= leb_encode(count as nat) + bytes@);
    }
    Ok(Some(Section::Standard { kind: section_kind, payload }))
}

/// When the entries of a component cannot be gathered, those of any run of
/// components that holds it cannot either, and the fault is the same.
proof fn lemma_gathered_fails(
    kind: EntryKind,
    modules: Seq<Seq<SectionView>>,
    maps: Seq<IndexMapView>,
    k: int,
    upto: int,
)
    requires
        0 <= k < upto <= modules.len(),
        gathered(kind, modules, maps, k) is Ok,
        gathered(kind, modules, maps, k + 1) is Err,
    ensures
        gathered(kind, modules, maps, upto) == gathered(kind, modules, maps, k + 1),
    decreases upto - k,
{
    if upto > k + 1 {
        lemma_gathered_fails(kind, modules, maps, k, upto - 1);
    }
}

/// Copies the first section of a structural kind among the components.
pub fn carry_section(kind: SectionKind, modules: &Vec<Module>) -> (r: Option<Section>)
    ensures
        match r {
            Some(section) => carried_section(kind, views(modules@), 0) == Some(section@),
            None => carried_section(kind, views(modules@), 0) is None,
        },
{
    let ghost lists = views(modules@);
    let mut k: usize = 0;
    while k < modules.len()
        invariant
            k <= modules@.len(),
            lists == views(modules@),
            carried_section(kind, lists, 0) == carried_section(kind, lists, k as int),
        decreases modules@.len() - k,
    {
        proof {
            assert(lists[k as int] == modules@[k as int]@);
        }
        match section_payload(&modules[k], kind) {
            Some(payload) => {
                return Some(Section::Standard { kind, payload: copy_bytes(payload) });
            },
            None => {},
        }
        k += 1;
    }
    None
}

/// Builds the data count section of the linked module.
pub fn make_data_count(modules: &Vec<Module>, maps: &Vec<IndexMap>) -> (r: Option<Section>)
    ensures
        match r {
            Some(section) => data_count_section(views(modules@), views(maps@)) == Some(section@),
            None => data_count_section(views(modules@), views(maps@)) is None,
        },
{
    let ghost lists = views(modules@);
    let mut k: usize = 0;
    let mut found = false;
    while k < modules.len() && !found
        invariant
            k <= modules@.len(),
            lists == views(modules@),
            !found ==> carried_data_count(lists, 0) == carried_data_count(lists, k as int),
            found ==> carried_data_count(lists, 0) is Some,
        decreases modules@.len() - k + if found { 0int } else { 1int },
    {
        proof {
            assert(lists[k as int] == modules@[k as int]@);
        }
        match find_data_count(&modules[k]) {
            Some(i) => {
                found = true;
            },
            None => {
                k += 1;
            },
        }
    }
    if !found {
        return None;
    }
    let total: u64 = if maps.len() == 0 {
        0
    } else {
        let last = &maps[maps.len() - 1];
        proof {
            assert(views(maps@).last() == last@);
        }
        last.data.first_defined as u64 + last.data.defined as u64
    };
    let mut payload: Vec<u8> = Vec::new();
    write_uleb128(&mut payload, total);
    proof {
        assert(payload@ =~= leb_encode(data_total(views(maps@))));
    }
    Some(Section::Unknown { id: DATA_COUNT_ID, payload })
}

fn move_import(entry: &ImportEntry, map: &IndexMap) -> (r: Result<ImportEntry, ParseError>)
    ensures
        match r {
            Ok(moved) => moved_import(entry@, map@) == Ok::<ImportEntryView, ParseError>(moved@),
            Err(e) => moved_import(entry@, map@) == Err::<ImportEntryView, ParseError>(e),
        },
{
    let descriptor = match entry.kind {
        ExternKind::Function => {
            let (index, end) = match read_u32(entry.descriptor.as_slice(), 0) {
                Err(e) => {
                    return Err(e);
                },
                Ok(pair) => pair,
            };
            match map.type_index(index) {
                None => {
                    return Err(ParseError { offset: 0, reason: ParseErrorReason::OutOfRange });
                },
                Some(target) => {
                    let mut bytes: Vec<u8> = Vec::new();
                    write_uleb128(&mut bytes, target as u64);
                    proof {
                        assert(bytes@ =~= leb_encode(target as nat));
                    }
                    bytes
                },
            }
        },
        _ => copy_bytes(&entry.descriptor),
    };
    Ok(
        ImportEntry {
            module: copy_bytes(&entry.module),
            name: copy_bytes(&entry.name),
            kind: entry.kind,
            descriptor,
        },
    )
}

fn move_export(entry: &ExportEntry, map: &IndexMap) -> (r: Result<ExportEntry, ParseError>)
    ensures
        match r {
            Ok(moved) => moved_export(entry@, map@) == Ok::<ExportEntryView, ParseError>(moved@),
            Err(e) => moved_export(entry@, map@) == Err::<ExportEntryView, ParseError>(e),
        },
{
    let index = match space_of_kind(entry.kind) {
        None => {
            return Err(ParseError { offset: 0, reason: ParseErrorReason::OutOfRange });
        },
        Some(space) => match map.target(space, entry.index) {
            None => {
                return Err(ParseError { offset: 0, reason: ParseErrorReason::OutOfRange });
            },
            Some(new) => new,
        },
    };
    Ok(ExportEntry { name: copy_bytes(&entry.name), kind: entry.kind, index })
}

/// Gathers the imports of the linked module.
pub fn merge_imports(
    interfaces: &Vec<Interface>,
    bindings: &Vec<Vec<Binding>>,
    maps: &Vec<IndexMap>,
) -> (r: Result<Vec<ImportEntry>, Fault>)
    requires
        maps@.len() == interfaces@.len(),
        crate::resolver::fits(views(bindings@), views(interfaces@)),
    ensures
        match r {
            Ok(entries) => linked_imports(views(interfaces@), views(bindings@), views(maps@))
                == Ok::<Seq<ImportEntryView>, Fault>(views(entries@)),
            Err(fault) => linked_imports(views(interfaces@), views(bindings@), views(maps@))
                == Err::<Seq<ImportEntryView>, Fault>(fault),
        },
{
    let ghost all = views(interfaces@);
    let ghost bound = views(bindings@);
    let ghost tables = views(maps@);
    let mut entries: Vec<ImportEntry> = Vec::new();
    let mut k: usize = 0;
    proof {
        assert(views(entries@) =~= Seq::<ImportEntryView>::empty());
    }
    while k < interfaces.len()
        invariant
            k <= interfaces@.len(),
            maps@.len() == interfaces@.len(),
            all == views(interfaces@),
            bound == views(bindings@),
            tables == views(maps@),
            crate::resolver::fits(bound, all),
            merged_imports(all, bound, tables, k as int) == Ok::<Seq<ImportEntryView>, Fault>(
                views(entries@),
            ),
        decreases interfaces@.len() - k,
    {
        let imports = &interfaces[k].imports;
        let row = &bindings[k];
        let ghost before = views(entries@);
        proof {
            assert(all[k as int] == interfaces@[k as int]@);
            assert(bound[k as int] == bindings@[k as int]@);
            assert(tables[k as int] == maps@[k as int]@);
            assert(before + Seq::<ImportEntryView>::empty() =~= before);
        }
        let mut j: usize = 0;
        while j < imports.len()
            invariant
                j <= imports@.len(),
                k < interfaces@.len(),
                maps@.len() == interfaces@.len(),
                all == views(interfaces@),
                bound == views(bindings@),
                tables == views(maps@),
                imports == &interfaces@[k as int].imports,
                row == &bindings@[k as int],
                all[k as int].imports == views(imports@),
                bound[k as int] == row@,
                row@.len() == imports@.len(),
                tables[k as int] == maps@[k as int]@,
                merged_imports(all, bound, tables, k as int) == Ok::<Seq<ImportEntryView>, Fault>(
                    before,
                ),
                kept_imports(all, bound, tables, k as int, j as int) matches Ok(kept) && before
                    + kept == views(entries@),
            decreases imports@.len() - j,
        {
            let ghost kept = kept_imports(all, bound, tables, k as int, j as int)->Ok_0;
            let ghost so_far = views(entries@);
            proof {
                assert(all[k as int].imports[j as int] == imports@[j as int]@);
            }
            match row[j] {
                Binding::Internal { .. } => {},
                Binding::External => {
                    match move_import(&imports[j], &maps[k]) {
                        Err(e) => {
                            proof {
                                lemma_kept_imports_fail(
                                    all,
                                    bound,
                                    tables,
                                    k as int,
                                    j as int,
                                    imports@.len() as int,
                                );
                                lemma_merged_imports_fail(
                                    all,
                                    bound,
                                    tables,
                                    k as int,
                                    all.len() as int,
                                );
                            }
                            return Err(malformed_in(k, e));
                        },
                        Ok(moved) => {
                            entries.push(moved);
                            proof {
                                assert(views(entries@) =~= so_far.push(moved@));
                                assert(before + kept.push(moved@) =~= so_far.push(moved@));
                            }
                        },
                    }
                },
            }
            j += 1;
        }
        k += 1;
    }
    if entries.len() > u32::MAX as usize {
        return Err(Fault::TooManyItems);
    }
    Ok(entries)
}

proof fn lemma_kept_imports_fail(
    interfaces: Seq<InterfaceView>,
    bindings: Seq<Seq<Binding>>,
    maps: Seq<IndexMapView>,
    k: int,
    j: int,
    upto: int,
)
    requires
        0 <= j < upto <= interfaces[k].imports.len(),
        kept_imports(interfaces, bindings, maps, k, j) is Ok,
        kept_imports(interfaces, bindings, maps, k, j + 1) is Err,
    ensures
        kept_imports(interfaces, bindings, maps, k, upto) == kept_imports(
            interfaces,
            bindings,
            maps,
            k,
            j + 1,
        ),
    decreases upto - j,
{
    if upto > j + 1 {
        lemma_kept_imports_fail(interfaces, bindings, maps, k, j, upto - 1);
    }
}

proof fn lemma_merged_imports_fail(
    interfaces: Seq<InterfaceView>,
    bindings: Seq<Seq<Binding>>,
    maps: Seq<IndexMapView>,
    k: int,
    upto: int,
)
    requires
        0 <= k < upto <= interfaces.len(),
        merged_imports(interfaces, bindings, maps, k) is Ok,
        kept_imports(interfaces, bindings, maps, k, interfaces[k].imports.len() as int) is Err,
    ensures
        merged_imports(interfaces, bindings, maps, upto) == Err::<Seq<ImportEntryView>, Fault>(
            kept_imports(interfaces, bindings, maps, k, interfaces[k].imports.len() as int)->Err_0,
        ),
    decreases upto - k,
{
    if upto > k + 1 {
        lemma_merged_imports_fail(interfaces, bindings, maps, k, upto - 1);
    }
}

/// Whether one of the exports bears the name.
fn has_export_named(exports: &Vec<ExportEntry>, name: &[u8]) -> (r: bool)
    ensures
        r == exports_name(views(exports@), name@),
{
    let ghost all = views(exports@);
    let mut i: usize = 0;
    while i < exports.len()
        invariant
            i <= exports@.len(),
            all == views(exports@),
            forall|h: int| 0 <= h < i ==> (#[trigger] all[h]).name != name@,
        decreases exports@.len() - i,
    {
        proof {
            assert(all[i as int] == exports@[i as int]@);
        }
        if same_bytes(exports[i].name.as_slice(), name) {
            return true;
        }
        i += 1;
    }
    false
}

/// Gathers the exports of the linked module.
pub fn merge_exports(interfaces: &Vec<Interface>, maps: &Vec<IndexMap>) -> (r: Result<
    Vec<ExportEntry>,
    Fault,
>)
    requires
        maps@.len() == interfaces@.len(),
    ensures
        match r {
            Ok(entries) => linked_exports(views(interfaces@), views(maps@)) == Ok::<
                Seq<ExportEntryView>,
                Fault,
            >(views(entries@)),
            Err(fault) => linked_exports(views(interfaces@), views(maps@)) == Err::<
                Seq<ExportEntryView>,
                Fault,
            >(fault),
        },
{
    let ghost all = views(interfaces@);
    let ghost tables = views(maps@);
    let mut entries: Vec<ExportEntry> = Vec::new();
    let mut k: usize = 0;
    proof {
        assert(views(entries@) =~= Seq::<ExportEntryView>::empty());
    }
    while k < interfaces.len()
        invariant
            k <= interfaces@.len(),
            maps@.len() == interfaces@.len(),
            all == views(interfaces@),
            tables == views(maps@),
            merged_exports(all, tables, k as int) == Ok::<Seq<ExportEntryView>, Fault>(
                views(entries@),
            ),
        decreases interfaces@.len() - k,
    {
        let exports = &interfaces[k].exports;
        let ghost before = views(entries@);
        proof {
            assert(all[k as int] == interfaces@[k as int]@);
            assert(tables[k as int] == maps@[k as int]@);
        }
        let mut j: usize = 0;
        while j < exports.len()
            invariant
                j <= exports@.len(),
                k < interfaces@.len(),
                maps@.len() == interfaces@.len(),
                all == views(interfaces@),
                tables == views(maps@),
                exports == &interfaces@[k as int].exports,
                all[k as int].exports == views(exports@),
                tables[k as int] == maps@[k as int]@,
                merged_exports(all, tables, k as int) == Ok::<Seq<ExportEntryView>, Fault>(before),
                added_exports(before, all, tables, k as int, j as int) == Ok::<
                    Seq<ExportEntryView>,
                    Fault,
                >(views(entries@)),
            decreases exports@.len() - j,
        {
            let ghost so_far = views(entries@);
            proof {
                assert(all[k as int].exports[j as int] == exports@[j as int]@);
            }
            if has_export_named(&entries, exports[j].name.as_slice()) {
                proof {
                    lemma_added_exports_fail(
                        before,
                        all,
                        tables,
                        k as int,
                        j as int,
                        exports@.len() as int,
                    );
                    lemma_merged_exports_fail(all, tables, k as int, all.len() as int);
                }
                return Err(
                    Fault::Component {
                        component: k,
                        defect: Defect::Unsupported(Refusal::RepeatedExport),
                    },
                );
            }
            match move_export(&exports[j], &maps[k]) {
                Err(e) => {
                    proof {
                        lemma_added_exports_fail(
                            before,
                            all,
                            tables,
                            k as int,
                            j as int,
                            exports@.len() as int,
                        );
                        lemma_merged_exports_fail(all, tables, k as int, all.len() as int);
                    }
                    return Err(malformed_in(k, e));
                },
                Ok(moved) => {
                    entries.push(moved);
                    proof {
                        assert(views(entries@) =~= so_far.push(moved@));
                    }
                },
            }
            j += 1;
        }
        k += 1;
    }
    if entries.len() > u32::MAX as usize {
        return Err(Fault::TooManyItems);
    }
    Ok(entries)
}

proof fn lemma_added_exports_fail(
    found: Seq<ExportEntryView>,
    interfaces: Seq<InterfaceView>,
    maps: Seq<IndexMapView>,
    k: int,
    j: int,
    upto: int,
)
    requires
        0 <= j < upto <= interfaces[k].exports.len(),
        added_exports(found, interfaces, maps, k, j) is Ok,
        added_exports(found, interfaces, maps, k, j + 1) is Err,
    ensures
        added_exports(found, interfaces, maps, k, upto) == added_exports(
            found,
            interfaces,
            maps,
            k,
            j + 1,
        ),
    decreases upto - j,
{
    if upto > j + 1 {
        lemma_added_exports_fail(found, interfaces, maps, k, j, upto - 1);
    }
}

proof fn lemma_merged_exports_fail(
    interfaces: Seq<InterfaceView>,
    maps: Seq<IndexMapView>,
    k: int,
    upto: int,
)
    requires
        0 <= k < upto <= interfaces.len(),
        merged_exports(interfaces, maps, k) is Ok,
        merged_exports(interfaces, maps, k + 1) is Err,
    ensures
        merged_exports(interfaces, maps, upto) == merged_exports(interfaces, maps, k + 1),
    decreases upto - k,
{
    if upto > k + 1 {
        lemma_merged_exports_fail(interfaces, maps, k, upto - 1);
    }
}

/// Builds the start section of the linked module.
pub fn merge_start(modules: &Vec<Module>, maps: &Vec<IndexMap>) -> (r: Result<
    Option<Section>,
    Fault,
>)
    requires
        maps@.len() == modules@.len(),
    ensures
        match r {
            Ok(Some(section)) => merged_start(views(modules@), views(maps@), 0) == Ok::<
                Option<SectionView>,
                Fault,
            >(Some(section@)),
            Ok(None) => merged_start(views(modules@), views(maps@), 0) == Ok::<
                Option<SectionView>,
                Fault,
            >(None),
            Err(fault) => merged_start(views(modules@), views(maps@), 0) == Err::<
                Option<SectionView>,
                Fault,
            >(fault),
        },
{
    let ghost lists = views(modules@);
    let ghost tables = views(maps@);
    let mut k: usize = 0;
    while k < modules.len()
        invariant
            k <= modules@.len(),
            maps@.len() == modules@.len(),
            lists == views(modules@),
            tables == views(maps@),
            merged_start(lists, tables, 0) == merged_start(lists, tables, k as int),
        decreases modules@.len() - k,
    {
        proof {
            assert(lists[k as int] == modules@[k as int]@);
            assert(tables[k as int] == maps@[k as int]@);
        }
        match section_payload(&modules[k], SectionKind::Start) {
            None => {},
            Some(payload) => {
                let (index, end) = match read_u32(payload.as_slice(), 0) {
                    Err(e) => {
                        return Err(malformed_in(k, e));
                    },
                    Ok(pair) => pair,
                };
                if end != payload.len() {
                    return Err(
                        malformed_in(
                            k,
                            ParseError { offset: end, reason: ParseErrorReason::TrailingBytes },
                        ),
                    );
                }
                match maps[k].function(index) {
                    None => {
                        return Err(
                            malformed_in(
                                k,
                                ParseError { offset: 0, reason: ParseErrorReason::OutOfRange },
                            ),
                        );
                    },
                    Some(target) => {
                        let mut bytes: Vec<u8> = Vec::new();
                        write_uleb128(&mut bytes, target as u64);
                        proof {
                            assert(bytes@ =~= leb_encode(target as nat));
                        }
                        return Ok(
                            Some(Section::Standard { kind: SectionKind::Start, payload: bytes }),
                        );
                    },
                }
            },
        }
        k += 1;
    }
    Ok(None)
}

/// Counting the imports of a space in two lists is counting in one behind
/// the other.
pub proof fn lemma_count_in_concat(
    a: Seq<ImportEntryView>,
    b: Seq<ImportEntryView>,
    space: Space,
    upto: int,
)
    requires
        0 <= upto <= b.len(),
    ensures
        count_in(a + b, space, a.len() + upto) == count_in(a, space, a.len() as int) + count_in(
            b,
            space,
            upto,
        ),
    decreases upto,
{
    if upto == 0 {
        lemma_count_in_prefix(a, b, space, a.len() as int);
    } else {
        lemma_count_in_concat(a, b, space, upto - 1);
        assert((a + b)[a.len() + upto - 1] == b[upto - 1]);
    }
}

proof fn lemma_count_in_prefix(
    a: Seq<ImportEntryView>,
    b: Seq<ImportEntryView>,
    space: Space,
    upto: int,
)
    requires
        0 <= upto <= a.len(),
    ensures
        count_in(a + b, space, upto) == count_in(a, space, upto),
    decreases upto,
{
    if upto > 0 {
        lemma_count_in_prefix(a, b, space, upto - 1);
        assert((a + b)[upto - 1] == a[upto - 1]);
    }
}

/// The imports of a space that a component keeps are those that stay
/// external.
pub proof fn lemma_kept_imports_are_external(
    interfaces: Seq<InterfaceView>,
    bindings: Seq<Seq<Binding>>,
    maps: Seq<IndexMapView>,
    k: int,
    space: Space,
    upto: int,
)
    requires
        0 <= upto <= interfaces[k].imports.len(),
        kept_imports(interfaces, bindings, maps, k, upto) is Ok,
    ensures
        ({
            let kept = kept_imports(interfaces, bindings, maps, k, upto)->Ok_0;
            count_in(kept, space, kept.len() as int) == count_unbound(
                interfaces[k].imports,
                bindings[k],
                space,
                upto,
            )
        }),
    decreases upto,
{
    if upto > 0 {
        lemma_kept_imports_are_external(interfaces, bindings, maps, k, space, upto - 1);
        let before = kept_imports(interfaces, bindings, maps, k, upto - 1)->Ok_0;
        let kept = kept_imports(interfaces, bindings, maps, k, upto)->Ok_0;
        if !(bindings[k][upto - 1] is Internal) {
            let entry = moved_import(interfaces[k].imports[upto - 1], maps[k])->Ok_0;
            assert(kept == before.push(entry));
            assert(kept =~= before + seq![entry]);
            lemma_count_in_concat(before, seq![entry], space, 1);
            assert(count_in(seq![entry], space, 0) == 0);
        }
    }
}

/// The imports of the linked module are exactly the imports of the
/// components that stay external, space by space: an import that was bound
/// is not among the imports of the result.
pub proof fn lemma_linked_imports_are_external(
    shapes: Seq<Shape>,
    interfaces: Seq<InterfaceView>,
    bindings: Seq<Seq<Binding>>,
    maps: Seq<IndexMapView>,
    space: Space,
    upto: int,
)
    requires
        shapes_fit(shapes, interfaces, bindings),
        0 <= upto <= interfaces.len(),
        merged_imports(interfaces, bindings, maps, upto) is Ok,
    ensures
        ({
            let imports = merged_imports(interfaces, bindings, maps, upto)->Ok_0;
            count_in(imports, space, imports.len() as int) == externals_before(shapes, space, upto)
        }),
    decreases upto,
{
    if upto > 0 {
        lemma_linked_imports_are_external(shapes, interfaces, bindings, maps, space, upto - 1);
        let before = merged_imports(interfaces, bindings, maps, upto - 1)->Ok_0;
        let kept = kept_imports(
            interfaces,
            bindings,
            maps,
            upto - 1,
            interfaces[upto - 1].imports.len() as int,
        )->Ok_0;
        lemma_kept_imports_are_external(
            interfaces,
            bindings,
            maps,
            upto - 1,
            space,
            interfaces[upto - 1].imports.len() as int,
        );
        lemma_count_in_concat(before, kept, space, kept.len() as int);
        assert(shape_fits(shapes[upto - 1], interfaces[upto - 1].imports, bindings[upto - 1]));
    }
}

/// No two of the exports bear the same name.
pub open spec fn distinct_names(exports: Seq<ExportEntryView>) -> bool {
    forall|i: int, j: int|
        0 <= i < j < exports.len() ==> (#[trigger] exports[i]).name != (#[trigger] exports[j]).name
}

proof fn lemma_added_exports_distinct(
    found: Seq<ExportEntryView>,
    interfaces: Seq<InterfaceView>,
    maps: Seq<IndexMapView>,
    k: int,
    upto: int,
)
    requires
        0 <= upto <= interfaces[k].exports.len(),
        distinct_names(found),
        added_exports(found, interfaces, maps, k, upto) is Ok,
    ensures
        distinct_names(added_exports(found, interfaces, maps, k, upto)->Ok_0),
    decreases upto,
{
    if upto > 0 {
        lemma_added_exports_distinct(found, interfaces, maps, k, upto - 1);
        let before = added_exports(found, interfaces, maps, k, upto - 1)->Ok_0;
        let entry = moved_export(interfaces[k].exports[upto - 1], maps[k])->Ok_0;
        let after = before.push(entry);
        assert forall|i: int, j: int| 0 <= i < j < after.len() implies (#[trigger] after[i]).name
            != (#[trigger] after[j]).name by {
            if j < before.len() {
                assert(after[i] == before[i] && after[j] == before[j]);
            } else {
                assert(after[i] == before[i]);
            }
        }
    }
}

/// The exports of the linked module bear names that differ from each other.
pub proof fn lemma_merged_exports_distinct(
    interfaces: Seq<InterfaceView>,
    maps: Seq<IndexMapView>,
    upto: int,
)
    requires
        0 <= upto <= interfaces.len(),
        merged_exports(interfaces, maps, upto) is Ok,
    ensures
        distinct_names(merged_exports(interfaces, maps, upto)->Ok_0),
    decreases upto,
{
    if upto > 0 {
        lemma_merged_exports_distinct(interfaces, maps, upto - 1);
        lemma_added_exports_distinct(
            merged_exports(interfaces, maps, upto - 1)->Ok_0,
            interfaces,
            maps,
            upto - 1,
            interfaces[upto - 1].exports.len() as int,
        );
    }
}

/// The exports that are added stay, and each export of the component is
/// among them with its new index.
proof fn lemma_added_exports_hold(
    found: Seq<ExportEntryView>,
    interfaces: Seq<InterfaceView>,
    maps: Seq<IndexMapView>,
    k: int,
    upto: int,
)
    requires
        0 <= k < interfaces.len(),
        0 <= upto <= interfaces[k].exports.len(),
        added_exports(found, interfaces, maps, k, upto) is Ok,
    ensures
        ({
            let exports = added_exports(found, interfaces, maps, k, upto)->Ok_0;
            &&& exports.len() == found.len() + upto
            &&& forall|i: int| 0 <= i < found.len() ==> #[trigger] exports[i] == found[i]
            &&& forall|e: int|
                0 <= e < upto ==> moved_export(#[trigger] interfaces[k].exports[e], maps[k]) == Ok::<
                    ExportEntryView,
                    ParseError,
                >(exports[found.len() + e])
        }),
    decreases upto,
{
    if upto > 0 {
        lemma_added_exports_hold(found, interfaces, maps, k, upto - 1);
    }
}

/// Every export of every component is an export of the linked module: it
/// stands there under its name, with the new index of what it names.
pub proof fn lemma_exports_are_merged(
    interfaces: Seq<InterfaceView>,
    maps: Seq<IndexMapView>,
    k: int,
    e: int,
    upto: int,
)
    requires
        0 <= k < upto <= interfaces.len(),
        0 <= e < interfaces[k].exports.len(),
        merged_exports(interfaces, maps, upto) is Ok,
    ensures
        moved_export(interfaces[k].exports[e], maps[k]) matches Ok(moved) && merged_exports(
            interfaces,
            maps,
            upto,
        )->Ok_0.contains(moved),
    decreases upto,
{
    let before = merged_exports(interfaces, maps, upto - 1)->Ok_0;
    let exports = merged_exports(interfaces, maps, upto)->Ok_0;
    lemma_added_exports_hold(
        before,
        interfaces,
        maps,
        upto - 1,
        interfaces[upto - 1].exports.len() as int,
    );
    if k == upto - 1 {
        let moved = moved_export(interfaces[k].exports[e], maps[k])->Ok_0;
        assert(exports[before.len() + e] == moved);
    } else {
        lemma_exports_are_merged(interfaces, maps, k, e, upto - 1);
        let moved = moved_export(interfaces[k].exports[e], maps[k])->Ok_0;
        let i = choose|i: int| 0 <= i < before.len() && before[i] == moved;
        assert(exports[i] == moved);
    }
}

} // verus!
