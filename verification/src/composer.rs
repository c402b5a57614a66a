//! The composition engine: several modules in, one module out.
//!
//! The engine reads the imports and exports of every input, resolves imports
//! against exports as the configuration asks, lays the linked module out and
//! merges the sections. An input that cannot be read, or that asks for more
//! than this engine does, makes the whole composition fail; nothing is ever
//! linked by guessing.
//!
//! Every index space is renumbered: functions, tables, memories, globals,
//! types, element segments and data segments. In each space the imports that
//! stay imports come first, in the order of the inputs, and behind them what
//! the inputs define, input by input; an import that is bound takes the index
//! of the item that it is bound to. Instructions, constant expressions,
//! segments and exports are rewritten to match.
//!
//! What the engine does not do: a module has one start function and one
//! export of a name, so an input that brings a second one is refused, and so
//! is an import that is bound to an export of another kind or to nothing but
//! exports of imports that go round. The engine carries no custom section
//! over, and it refuses tags, sections of unknown kind other than the data
//! count, and types and instructions of proposals that name types in other
//! ways than by a plain index.

use crate::catalog::{
    encode_exports, encode_exports_spec, encode_imports, encode_imports_spec,
    exports_of, exports_spec, imports_of, imports_spec, ExportEntryView, ImportEntryView,
};
use crate::codec::{decode, decode_spec, encode, encode_spec};
use crate::config::{
    default_component, default_config, ComponentConfig, CompositionConfig, CompositionConfigView,
    LinkStrategy,
};
use crate::layout::{
    defined_before, layout, layout_spec, shape_fits, shape_of, shape_spec, shapes_fit, Defect,
    Fault, Refusal, Shape,
};
use crate::merge::{
    any_has, carry_section, data_count_section, gathered, linked_exports, linked_imports,
    make_data_count, malformed, merge_entries, merge_exports, merge_imports, merge_start,
    merged_section, merged_start, with_section,
};
use crate::module::{views, Module, ParseError, Section, SectionKind, SectionView};
use crate::optimizer::Engine;
use crate::resolver::{
    bindings_wf, component_named, count_offers, is_ambiguous, lemma_ambiguity_is_reported,
    lemma_missing_export_is_reported, resolve_auto, resolve_auto_spec, resolve_manual,
    resolve_manual_spec, Binding, Interface, InterfaceView,
};
use crate::rewrite::{EntryKind, IndexMap, IndexMapView, Space};
use crate::utils::{holds_text, is_simple_name, simple_stem, text_of};
use vstd::prelude::*;
use vstd::string::StringExecFns;
use vstd::utf8::encode_utf8;

verus! {

/// Why a composition failed.
#[derive(Clone, Debug, PartialEq, Eq)]
pub enum LinkError {
    /// There is nothing to compose.
    NoComponents,
    /// Under the automatic strategy, imports have more than one candidate.
    /// The field names of all such imports are given.
    AmbiguousImport(Vec<Vec<u8>>),
    /// Under the manual strategy, connections name something that does not
    /// exist, or that exists more than once, or an import that is connected
    /// already. The offending name of each such connection is given.
    UnresolvedConnection(Vec<String>),
    /// The input with the given position cannot be read.
    Malformed { component: usize, error: ParseError },
    /// The input with the given position asks for something that the engine
    /// does not do.
    Unsupported { component: usize, reason: Refusal },
    /// The linked module would hold more functions, types or other entries
    /// than an index of 32 bits can name.
    TooManyItems,
}

/// The mathematical value of a [`LinkError`].
pub enum LinkErrorView {
    NoComponents,
    AmbiguousImport(Seq<Seq<u8>>),
    UnresolvedConnection(Seq<Seq<char>>),
    Malformed { component: usize, error: ParseError },
    Unsupported { component: usize, reason: Refusal },
    TooManyItems,
}

impl View for LinkError {
    type V = LinkErrorView;

    open spec fn view(&self) -> LinkErrorView {
        match self {
            LinkError::NoComponents => LinkErrorView::NoComponents,
            LinkError::AmbiguousImport(names) => LinkErrorView::AmbiguousImport(views(names@)),
            LinkError::UnresolvedConnection(names) => LinkErrorView::UnresolvedConnection(
                views(names@),
            ),
            LinkError::Malformed { component, error } => LinkErrorView::Malformed {
                component: *component,
                error: *error,
            },
            LinkError::Unsupported { component, reason } => LinkErrorView::Unsupported {
                component: *component,
                reason: *reason,
            },
            LinkError::TooManyItems => LinkErrorView::TooManyItems,
        }
    }
}

/// The error that a fault becomes.
pub open spec fn fault_error(fault: Fault) -> LinkErrorView {
    match fault {
        Fault::Component { component, defect: Defect::Malformed(error) } => LinkErrorView::Malformed {
            component,
            error,
        },
        Fault::Component {
            component,
            defect: Defect::Unsupported(reason),
        } => LinkErrorView::Unsupported { component, reason },
        Fault::TooManyItems => LinkErrorView::TooManyItems,
    }
}

fn error_of(fault: Fault) -> (r: LinkError)
    ensures
        r@ == fault_error(fault),
{
    match fault {
        Fault::Component { component, defect: Defect::Malformed(error) } => LinkError::Malformed {
            component,
            error,
        },
        Fault::Component { component, defect: Defect::Unsupported(reason) } => {
            LinkError::Unsupported { component, reason }
        },
        Fault::TooManyItems => LinkError::TooManyItems,
    }
}

/// The imports and exports of a module.
pub open spec fn interface_spec(sections: Seq<SectionView>) -> Result<InterfaceView, ParseError> {
    match imports_spec(sections) {
        Err(e) => Err(e),
        Ok(imports) => match exports_spec(sections) {
            Err(e) => Err(e),
            Ok(exports) => Ok(InterfaceView { imports, exports }),
        },
    }
}

/// The interfaces of the first `upto` modules, or the fault of the first of
/// them that cannot be read.
pub open spec fn interfaces_spec(modules: Seq<Seq<SectionView>>, upto: int) -> Result<
    Seq<InterfaceView>,
    Fault,
>
    decreases upto,
{
    if upto <= 0 || upto > modules.len() {
        Ok(Seq::empty())
    } else {
        match interfaces_spec(modules, upto - 1) {
            Err(fault) => Err(fault),
            Ok(before) => match interface_spec(modules[upto - 1]) {
                Err(e) => Err(malformed(upto - 1, e)),
                Ok(interface) => Ok(before.push(interface)),
            },
        }
    }
}

/// The bindings that the configured strategy decides on.
pub open spec fn resolve_spec(interfaces: Seq<InterfaceView>, config: CompositionConfigView)
    -> Result<Seq<Seq<Binding>>, LinkErrorView> {
    match config.strategy {
        LinkStrategy::Auto => match resolve_auto_spec(interfaces) {
            Ok(bindings) => Ok(bindings),
            Err(names) => Err(LinkErrorView::AmbiguousImport(names)),
        },
        LinkStrategy::Manual => match resolve_manual_spec(
            interfaces,
            config.components,
            config.connections,
        ) {
            Ok(bindings) => Ok(bindings),
            Err(names) => Err(LinkErrorView::UnresolvedConnection(names)),
        },
    }
}

/// The shapes of the first `upto` modules, or the fault of the first of them
/// that has a defect.
pub open spec fn shapes_spec(
    modules: Seq<Seq<SectionView>>,
    interfaces: Seq<InterfaceView>,
    bindings: Seq<Seq<Binding>>,
    upto: int,
) -> Result<Seq<Shape>, Fault>
    decreases upto,
{
    if upto <= 0 || upto > modules.len() {
        Ok(Seq::empty())
    } else {
        match shapes_spec(modules, interfaces, bindings, upto - 1) {
            Err(fault) => Err(fault),
            Ok(before) => match shape_spec(
                modules[upto - 1],
                interfaces[upto - 1].imports,
                bindings[upto - 1],
            ) {
                Err(defect) => Err(Fault::Component { component: (upto - 1) as usize, defect }),
                Ok(shape) => Ok(before.push(shape)),
            },
        }
    }
}

/// The import section of the linked module: none when no input has one.
pub open spec fn import_section(modules: Seq<Seq<SectionView>>, imports: Seq<ImportEntryView>)
    -> Option<SectionView> {
    if any_has(SectionKind::Import, modules) {
        Some(
            SectionView::Standard {
                kind: SectionKind::Import,
                payload: encode_imports_spec(imports),
            },
        )
    } else {
        None
    }
}

/// The export section of the linked module: none when no input has one.
pub open spec fn export_section(modules: Seq<Seq<SectionView>>, exports: Seq<ExportEntryView>)
    -> Option<SectionView> {
    if any_has(SectionKind::Export, modules) {
        Some(
            SectionView::Standard {
                kind: SectionKind::Export,
                payload: encode_exports_spec(exports),
            },
        )
    } else {
        None
    }
}

/// The sections of the linked module up to the global section.
pub open spec fn assemble_front(
    modules: Seq<Seq<SectionView>>,
    interfaces: Seq<InterfaceView>,
    bindings: Seq<Seq<Binding>>,
    maps: Seq<IndexMapView>,
) -> Result<Seq<SectionView>, Fault> {
    match merged_section(EntryKind::Type, modules, maps) {
        Err(fault) => Err(fault),
        Ok(types) => match linked_imports(interfaces, bindings, maps) {
            Err(fault) => Err(fault),
            Ok(imports) => match merged_section(EntryKind::Function, modules, maps) {
                Err(fault) => Err(fault),
                Ok(functions) => match merged_section(EntryKind::Table, modules, maps) {
                    Err(fault) => Err(fault),
                    Ok(tables) => match merged_section(EntryKind::Memory, modules, maps) {
                        Err(fault) => Err(fault),
                        Ok(memories) => match merged_section(EntryKind::Global, modules, maps) {
                            Err(fault) => Err(fault),
                            Ok(globals) => Ok(
                                with_section(
                                    with_section(
                                        with_section(
                                            with_section(
                                                with_section(
                                                    with_section(Seq::empty(), types),
                                                    import_section(modules, imports),
                                                ),
                                                functions,
                                            ),
                                            tables,
                                        ),
                                        memories,
                                    ),
                                    globals,
                                ),
                            ),
                        },
                    },
                },
            },
        },
    }
}

/// The sections of the linked module, in the order that the format asks
/// for: types, imports, functions, tables, memories, globals, exports, start,
/// elements, data count, code, data.
pub open spec fn assemble_spec(
    modules: Seq<Seq<SectionView>>,
    interfaces: Seq<InterfaceView>,
    bindings: Seq<Seq<Binding>>,
    maps: Seq<IndexMapView>,
) -> Result<Seq<SectionView>, Fault> {
    match assemble_front(modules, interfaces, bindings, maps) {
        Err(fault) => Err(fault),
        Ok(front) => match linked_exports(interfaces, maps) {
            Err(fault) => Err(fault),
            Ok(exports) => match merged_start(modules, maps, 0) {
                Err(fault) => Err(fault),
                Ok(start) => match merged_section(EntryKind::Element, modules, maps) {
                    Err(fault) => Err(fault),
                    Ok(elements) => match merged_section(EntryKind::Body, modules, maps) {
                        Err(fault) => Err(fault),
                        Ok(code) => match merged_section(EntryKind::Data, modules, maps) {
                            Err(fault) => Err(fault),
                            Ok(data) => Ok(
                                with_section(
                                    with_section(
                                        with_section(
                                            with_section(
                                                with_section(
                                                    with_section(
                                                        front,
                                                        export_section(modules, exports),
                                                    ),
                                                    start,
                                                ),
                                                elements,
                                            ),
                                            data_count_section(modules, maps),
                                        ),
                                        code,
                                    ),
                                    data,
                                ),
                            ),
                        },
                    },
                },
            },
        },
    }
}

/// What linking resolved modules gives.
pub open spec fn link_resolved(
    modules: Seq<Seq<SectionView>>,
    interfaces: Seq<InterfaceView>,
    bindings: Seq<Seq<Binding>>,
) -> Result<Seq<SectionView>, Fault> {
    match shapes_spec(modules, interfaces, bindings, modules.len() as int) {
        Err(fault) => Err(fault),
        Ok(shapes) => match layout_spec(shapes, interfaces, bindings) {
            Err(fault) => Err(fault),
            Ok(maps) => assemble_spec(modules, interfaces, bindings, maps),
        },
    }
}

/// What composing modules under a configuration gives: the sections of the
/// linked module, or the first error met.
pub open spec fn link_spec(modules: Seq<Seq<SectionView>>, config: CompositionConfigView) -> Result<
    Seq<SectionView>,
    LinkErrorView,
> {
    if modules.len() == 0 {
        Err(LinkErrorView::NoComponents)
    } else {
        match interfaces_spec(modules, modules.len() as int) {
            Err(fault) => Err(fault_error(fault)),
            Ok(interfaces) => match resolve_spec(interfaces, config) {
                Err(e) => Err(e),
                Ok(bindings) => match link_resolved(modules, interfaces, bindings) {
                    Err(fault) => Err(fault_error(fault)),
                    Ok(sections) => Ok(sections),
                },
            },
        }
    }
}

/// Reads the imports and exports of a module.
pub fn interface_of(module: &Module) -> (r: Result<Interface, ParseError>)
    ensures
        match r {
            Ok(interface) => interface_spec(module@) == Ok::<InterfaceView, ParseError>(interface@),
            Err(e) => interface_spec(module@) == Err::<InterfaceView, ParseError>(e),
        },
{
    let imports = match imports_of(module) {
        Err(e) => {
            return Err(e);
        },
        Ok(entries) => entries,
    };
    let exports = match exports_of(module) {
        Err(e) => {
            return Err(e);
        },
        Ok(entries) => entries,
    };
    Ok(Interface { imports, exports })
}

fn read_interfaces(modules: &Vec<Module>) -> (r: Result<Vec<Interface>, Fault>)
    ensures
        match r {
            Ok(interfaces) => interfaces_spec(views(modules@), modules@.len() as int) == Ok::<
                Seq<InterfaceView>,
                Fault,
            >(views(interfaces@)) && interfaces@.len() == modules@.len(),
            Err(fault) => interfaces_spec(views(modules@), modules@.len() as int) == Err::<
                Seq<InterfaceView>,
                Fault,
            >(fault),
        },
{
    let ghost lists = views(modules@);
    let mut interfaces: Vec<Interface> = Vec::new();
    let mut k: usize = 0;
    proof {
        assert(views(interfaces@) =~= Seq::<InterfaceView>::empty());
    }
    while k < modules.len()
        invariant
            k <= modules@.len(),
            lists == views(modules@),
            interfaces@.len() == k,
            interfaces_spec(lists, k as int) == Ok::<Seq<InterfaceView>, Fault>(
                views(interfaces@),
            ),
        decreases modules@.len() - k,
    {
        let ghost before = views(interfaces@);
        proof {
            assert(lists[k as int] == modules@[k as int]@);
        }
        match interface_of(&modules[k]) {
            Err(e) => {
                proof {
                    lemma_interfaces_fail(lists, k as int, lists.len() as int);
                }
                return Err(Fault::Component { component: k, defect: Defect::Malformed(e) });
            },
            Ok(interface) => {
                interfaces.push(interface);
                proof {
                    assert(views(interfaces@) =~= before.push(interface@));
                }
            },
        }
        k += 1;
    }
    Ok(interfaces)
}

proof fn lemma_interfaces_fail(modules: Seq<Seq<SectionView>>, k: int, upto: int)
    requires
        0 <= k < upto <= modules.len(),
        interfaces_spec(modules, k) is Ok,
        interfaces_spec(modules, k + 1) is Err,
    ensures
        interfaces_spec(modules, upto) == interfaces_spec(modules, k + 1),
    decreases upto - k,
{
    if upto > k + 1 {
        lemma_interfaces_fail(modules, k, upto - 1);
    }
}

fn take_shapes(modules: &Vec<Module>, interfaces: &Vec<Interface>, bindings: &Vec<Vec<Binding>>)
    -> (r: Result<Vec<Shape>, Fault>)
    requires
        interfaces@.len() == modules@.len(),
        bindings_wf(views(bindings@), views(interfaces@)),
    ensures
        match r {
            Ok(shapes) => shapes_spec(
                views(modules@),
                views(interfaces@),
                views(bindings@),
                modules@.len() as int,
            ) == Ok::<Seq<Shape>, Fault>(shapes@) && shapes_fit(
                shapes@,
                views(interfaces@),
                views(bindings@),
            ),
            Err(fault) => shapes_spec(
                views(modules@),
                views(interfaces@),
                views(bindings@),
                modules@.len() as int,
            ) == Err::<Seq<Shape>, Fault>(fault),
        },
{
    let ghost lists = views(modules@);
    let ghost all = views(interfaces@);
    let ghost bound = views(bindings@);
    let mut shapes: Vec<Shape> = Vec::new();
    let mut k: usize = 0;
    while k < modules.len()
        invariant
            k <= modules@.len(),
            interfaces@.len() == modules@.len(),
            lists == views(modules@),
            all == views(interfaces@),
            bound == views(bindings@),
            bindings_wf(bound, all),
            shapes@.len() == k,
            shapes_spec(lists, all, bound, k as int) == Ok::<Seq<Shape>, Fault>(shapes@),
            forall|i: int|
                0 <= i < k ==> shape_fits(#[trigger] shapes@[i], all[i].imports, bound[i]),
        decreases modules@.len() - k,
    {
        proof {
            assert(lists[k as int] == modules@[k as int]@);
            assert(all[k as int] == interfaces@[k as int]@);
            assert(bound[k as int] == bindings@[k as int]@);
        }
        match shape_of(&modules[k], &interfaces[k], &bindings[k]) {
            Err(defect) => {
                proof {
                    lemma_shapes_fail(lists, all, bound, k as int, lists.len() as int);
                }
                return Err(Fault::Component { component: k, defect });
            },
            Ok(shape) => {
                shapes.push(shape);
            },
        }
        k += 1;
    }
    Ok(shapes)
}

proof fn lemma_shapes_fail(
    modules: Seq<Seq<SectionView>>,
    interfaces: Seq<InterfaceView>,
    bindings: Seq<Seq<Binding>>,
    k: int,
    upto: int,
)
    requires
        0 <= k < upto <= modules.len(),
        shapes_spec(modules, interfaces, bindings, k) is Ok,
        shapes_spec(modules, interfaces, bindings, k + 1) is Err,
    ensures
        shapes_spec(modules, interfaces, bindings, upto) == shapes_spec(
            modules,
            interfaces,
            bindings,
            k + 1,
        ),
    decreases upto - k,
{
    if upto > k + 1 {
        lemma_shapes_fail(modules, interfaces, bindings, k, upto - 1);
    }
}

/// Appends a section to a list of sections, if there is one.
fn push_section(sections: &mut Vec<Section>, section: Option<Section>)
    ensures
        views(final(sections)@) == with_section(
            views(old(sections)@),
            match section {
                Some(s) => Some(s@),
                None => None,
            },
        ),
{
    match section {
        Some(s) => {
            sections.push(s);
            proof {
                assert(views(sections@) =~= views(old(sections)@).push(s@));
            }
        },
        None => {},
    }
}

fn assemble_first(
    modules: &Vec<Module>,
    interfaces: &Vec<Interface>,
    bindings: &Vec<Vec<Binding>>,
    maps: &Vec<IndexMap>,
) -> (r: Result<Vec<Section>, Fault>)
    requires
        interfaces@.len() == modules@.len(),
        maps@.len() == modules@.len(),
        bindings_wf(views(bindings@), views(interfaces@)),
    ensures
        match r {
            Ok(sections) => assemble_front(
                views(modules@),
                views(interfaces@),
                views(bindings@),
                views(maps@),
            ) == Ok::<Seq<SectionView>, Fault>(views(sections@)),
            Err(fault) => assemble_front(
                views(modules@),
                views(interfaces@),
                views(bindings@),
                views(maps@),
            ) == Err::<Seq<SectionView>, Fault>(fault),
        },
{
    let types = match merge_entries(EntryKind::Type, modules, maps) {
        Err(fault) => {
            return Err(fault);
        },
        Ok(section) => section,
    };
    let imports = match merge_imports(interfaces, bindings, maps) {
        Err(fault) => {
            return Err(fault);
        },
        Ok(entries) => entries,
    };
    let functions = match merge_entries(EntryKind::Function, modules, maps) {
        Err(fault) => {
            return Err(fault);
        },
        Ok(section) => section,
    };
    let tables = match merge_entries(EntryKind::Table, modules, maps) {
        Err(fault) => {
            return Err(fault);
        },
        Ok(section) => section,
    };
    let memories = match merge_entries(EntryKind::Memory, modules, maps) {
        Err(fault) => {
            return Err(fault);
        },
        Ok(section) => section,
    };
    let globals = match merge_entries(EntryKind::Global, modules, maps) {
        Err(fault) => {
            return Err(fault);
        },
        Ok(section) => section,
    };
    let import_part = match carry_section(SectionKind::Import, modules) {
        Some(_) => Some(
            Section::Standard { kind: SectionKind::Import, payload: encode_imports(&imports) },
        ),
        None => None,
    };
    let mut sections: Vec<Section> = Vec::new();
    proof {
        assert(views(sections@) =~= Seq::<SectionView>::empty());
    }
    push_section(&mut sections, types);
    push_section(&mut sections, import_part);
    push_section(&mut sections, functions);
    push_section(&mut sections, tables);
    push_section(&mut sections, memories);
    push_section(&mut sections, globals);
    Ok(sections)
}

fn assemble(
    modules: &Vec<Module>,
    interfaces: &Vec<Interface>,
    bindings: &Vec<Vec<Binding>>,
    maps: &Vec<IndexMap>,
) -> (r: Result<Vec<Section>, Fault>)
    requires
        interfaces@.len() == modules@.len(),
        maps@.len() == modules@.len(),
        bindings_wf(views(bindings@), views(interfaces@)),
    ensures
        match r {
            Ok(sections) => assemble_spec(
                views(modules@),
                views(interfaces@),
                views(bindings@),
                views(maps@),
            ) == Ok::<Seq<SectionView>, Fault>(views(sections@)),
            Err(fault) => assemble_spec(
                views(modules@),
                views(interfaces@),
                views(bindings@),
                views(maps@),
            ) == Err::<Seq<SectionView>, Fault>(fault),
        },
{
    let mut sections = match assemble_first(modules, interfaces, bindings, maps) {
        Err(fault) => {
            return Err(fault);
        },
        Ok(front) => front,
    };
    let exports = match merge_exports(interfaces, maps) {
        Err(fault) => {
            return Err(fault);
        },
        Ok(entries) => entries,
    };
    let start = match merge_start(modules, maps) {
        Err(fault) => {
            return Err(fault);
        },
        Ok(section) => section,
    };
    let elements = match merge_entries(EntryKind::Element, modules, maps) {
        Err(fault) => {
            return Err(fault);
        },
        Ok(section) => section,
    };
    let code = match merge_entries(EntryKind::Body, modules, maps) {
        Err(fault) => {
            return Err(fault);
        },
        Ok(section) => section,
    };
    let data = match merge_entries(EntryKind::Data, modules, maps) {
        Err(fault) => {
            return Err(fault);
        },
        Ok(section) => section,
    };
    let export_part = match carry_section(SectionKind::Export, modules) {
        Some(_) => Some(
            Section::Standard { kind: SectionKind::Export, payload: encode_exports(&exports) },
        ),
        None => None,
    };
    push_section(&mut sections, export_part);
    push_section(&mut sections, start);
    push_section(&mut sections, elements);
    push_section(&mut sections, make_data_count(modules, maps));
    push_section(&mut sections, code);
    push_section(&mut sections, data);
    Ok(sections)
}

/// Links modules whose imports have been resolved.
pub fn link(modules: &Vec<Module>, interfaces: &Vec<Interface>, bindings: &Vec<Vec<Binding>>) -> (r:
    Result<Module, Fault>)
    requires
        interfaces@.len() == modules@.len(),
        bindings_wf(views(bindings@), views(interfaces@)),
    ensures
        match r {
            Ok(module) => link_resolved(views(modules@), views(interfaces@), views(bindings@))
                == Ok::<Seq<SectionView>, Fault>(module@),
            Err(fault) => link_resolved(views(modules@), views(interfaces@), views(bindings@))
                == Err::<Seq<SectionView>, Fault>(fault),
        },
{
    let shapes = match take_shapes(modules, interfaces, bindings) {
        Err(fault) => {
            return Err(fault);
        },
        Ok(shapes) => shapes,
    };
    let maps = match layout(&shapes, interfaces, bindings) {
        Err(fault) => {
            return Err(fault);
        },
        Ok(maps) => maps,
    };
    let sections = match assemble(modules, interfaces, bindings, &maps) {
        Err(fault) => {
            return Err(fault);
        },
        Ok(sections) => sections,
    };
    let module = Module { sections };
    proof {
        assert(module@ =~= views(sections@));
    }
    Ok(module)
}

/// Composes modules into one.
///
/// Fails with `NoComponents` when there is no module. Otherwise the imports
/// and exports of every module are read, and a module that cannot be read
/// makes the composition fail. Imports are then resolved as the strategy of
/// the configuration says, and the modules are linked: an import that was
/// bound disappears, an import that was not stays an import of the result,
/// and every reference to a function or type is rewritten to its new index.
/// The inputs are left as they are.
pub fn compose(modules: &Vec<Module>, config: &CompositionConfig) -> (r: Result<Module, LinkError>)
    ensures
        match r {
            Ok(module) => link_spec(views(modules@), config@) == Ok::<
                Seq<SectionView>,
                LinkErrorView,
            >(module@),
            Err(e) => link_spec(views(modules@), config@) == Err::<Seq<SectionView>, LinkErrorView>(
                e@,
            ),
        },
        modules@.len() == 0 <==> r matches Err(LinkError::NoComponents),
{
    if modules.len() == 0 {
        return Err(LinkError::NoComponents);
    }
    let interfaces = match read_interfaces(modules) {
        Err(fault) => {
            return Err(error_of(fault));
        },
        Ok(interfaces) => interfaces,
    };
    let bindings = match config.linking.strategy {
        LinkStrategy::Auto => match resolve_auto(&interfaces) {
            Err(names) => {
                return Err(LinkError::AmbiguousImport(names));
            },
            Ok(bindings) => bindings,
        },
        LinkStrategy::Manual => match resolve_manual(
            &interfaces,
            &config.components,
            &config.linking.connections,
        ) {
            Err(names) => {
                return Err(LinkError::UnresolvedConnection(names));
            },
            Ok(bindings) => bindings,
        },
    };
    match link(modules, &interfaces, &bindings) {
        Err(fault) => Err(error_of(fault)),
        Ok(module) => Ok(module),
    }
}

/// `Path::file_stem` on the path that the text names, as text: the file name
/// without its extension, so the stem stands in the path. A simple name is
/// its own file name on every platform, so its stem is what stands before its
/// last dot. Of other paths nothing more is claimed: how they split into
/// components depends on the platform.
#[verifier::external_body]
fn file_stem(path: &str) -> (r: Option<String>)
    ensures
        r matches Some(stem) ==> holds_text(path@, stem@),
        is_simple_name(path@) ==> text_of(r) == Some(simple_stem(path@)),
{
    match std::path::Path::new(path).file_stem() {
        Some(stem) => Some(stem.to_string_lossy().into_owned()),
        None => None,
    }
}

/// The name of a component whose file has the given stem: the stem, or the
/// empty name where the path has no file name.
pub fn name_of_stem(stem: Option<String>) -> (r: String)
    ensures
        r@ == match stem {
            Some(s) => s@,
            None => Seq::<char>::empty(),
        },
{
    match stem {
        Some(s) => s,
        None => String::new(),
    }
}

/// What decoding the first `upto` inputs gives: the modules, or the fault of
/// the first input that does not decode.
pub open spec fn decode_all_spec(inputs: Seq<Seq<u8>>, upto: int) -> Result<
    Seq<Seq<SectionView>>,
    Fault,
>
    decreases upto,
{
    if upto <= 0 || upto > inputs.len() {
        Ok(Seq::empty())
    } else {
        match decode_all_spec(inputs, upto - 1) {
            Err(fault) => Err(fault),
            Ok(before) => match decode_spec(inputs[upto - 1]) {
                Err(e) => Err(malformed(upto - 1, e)),
                Ok(sections) => Ok(before.push(sections)),
            },
        }
    }
}

/// What composing encoded modules gives: the bytes of the linked module, or
/// the first error met.
pub open spec fn compose_bytes_spec(inputs: Seq<Seq<u8>>, config: CompositionConfigView) -> Result<
    Seq<u8>,
    LinkErrorView,
> {
    if inputs.len() == 0 {
        Err(LinkErrorView::NoComponents)
    } else {
        match decode_all_spec(inputs, inputs.len() as int) {
            Err(fault) => Err(fault_error(fault)),
            Ok(modules) => match link_spec(modules, config) {
                Err(e) => Err(e),
                Ok(sections) => Ok(encode_spec(sections)),
            },
        }
    }
}

proof fn lemma_decode_all_fails(inputs: Seq<Seq<u8>>, k: int, upto: int)
    requires
        0 <= k < upto <= inputs.len(),
        decode_all_spec(inputs, k) is Ok,
        decode_all_spec(inputs, k + 1) is Err,
    ensures
        decode_all_spec(inputs, upto) == decode_all_spec(inputs, k + 1),
    decreases upto - k,
{
    if upto > k + 1 {
        lemma_decode_all_fails(inputs, k, upto - 1);
    }
}

/// The composer, with the path of the external tool if one was found.
#[derive(Clone, Debug)]
pub struct Composer {
    pub wasm_compose_path: Option<String>,
}

impl Composer {
    /// A composer that delegates to the tool at `wasm_compose_path` when
    /// there is one, and otherwise works by itself.
    pub fn new(wasm_compose_path: Option<String>) -> (r: Self)
        ensures
            r.wasm_compose_path == wasm_compose_path,
    {
        Composer { wasm_compose_path }
    }

    /// The engine that was selected when the composer was made: the external
    /// tool when it is present, the built-in engine otherwise.
    pub fn engine(&self) -> (r: Engine)
        ensures
            r == (if self.wasm_compose_path is Some {
                Engine::ProcessBacked
            } else {
                Engine::BuiltIn
            }),
    {
        match &self.wasm_compose_path {
            Some(_) => Engine::ProcessBacked,
            None => Engine::BuiltIn,
        }
    }

    /// The arguments with which the external tool is run: the configuration
    /// file behind `-c` if there is one, the output behind `-o`, then the
    /// inputs.
    pub fn tool_arguments(config: Option<&str>, output: &str, components: &Vec<String>) -> (r: Vec<
        String,
    >)
        ensures
            views(r@) == (match config {
                Some(path) => seq!["-c"@, path@],
                None => Seq::<Seq<char>>::empty(),
            }) + seq!["-o"@, output@] + views(components@),
    {
        let mut arguments: Vec<String> = Vec::new();
        match config {
            Some(path) => {
                arguments.push(String::from_str("-c"));
                arguments.push(String::from_str(path));
            },
            None => {},
        }
        arguments.push(String::from_str("-o"));
        arguments.push(String::from_str(output));
        let ghost head = views(arguments@);
        proof {
            assert(head =~= (match config {
                Some(path) => seq!["-c"@, path@],
                None => Seq::<Seq<char>>::empty(),
            }) + seq!["-o"@, output@]);
        }
        let mut i: usize = 0;
        while i < components.len()
            invariant
                i <= components@.len(),
                views(arguments@) == head + views(components@).take(i as int),
            decreases components@.len() - i,
        {
            let ghost before = views(arguments@);
            let component = components[i].clone();
            arguments.push(component);
            proof {
                assert(views(arguments@) =~= before.push(components@[i as int]@));
                assert(views(components@).take(i + 1) =~= views(components@).take(i as int).push(
                    components@[i as int]@,
                ));
                assert(views(arguments@) =~= head + views(components@).take(i + 1));
            }
            i += 1;
        }
        proof {
            assert(views(components@).take(components@.len() as int) =~= views(components@));
        }
        arguments
    }

    /// The configuration that is used when none is given: one component for
    /// each path, named by the stem of its file name and without declared
    /// exports or imports; an output named `composed` in the format
    /// `component`; the automatic strategy without connections. The name of
    /// a component stands in its path, and for a path that is a simple name
    /// it is what stands before the last dot.
    pub fn generate_default_config(&self, components: &Vec<String>) -> (r: CompositionConfig)
        ensures
            r@.components.len() == components@.len(),
            forall|i: int|
                0 <= i < components@.len() ==> (#[trigger] r@.components[i]).path
                    == components@[i]@ && r@.components[i].exports.len() == 0
                    && r@.components[i].imports.len() == 0 && holds_text(
                    components@[i]@,
                    r@.components[i].name,
                ) && (is_simple_name(components@[i]@) ==> r@.components[i].name == simple_stem(
                    components@[i]@,
                )),
            r@.output_name == "composed"@,
            r@.output_format == "component"@,
            r@.strategy == LinkStrategy::Auto,
            r@.connections.len() == 0,
    {
        let mut parts: Vec<ComponentConfig> = Vec::new();
        let mut i: usize = 0;
        while i < components.len()
            invariant
                i <= components@.len(),
                parts@.len() == i,
                forall|h: int|
                    0 <= h < i ==> (#[trigger] parts@[h])@.path == components@[h]@
                        && parts@[h]@.exports.len() == 0 && parts@[h]@.imports.len() == 0
                        && holds_text(components@[h]@, parts@[h]@.name) && (is_simple_name(
                        components@[h]@,
                    ) ==> parts@[h]@.name == simple_stem(components@[h]@)),
            decreases components@.len() - i,
        {
            let stem = file_stem(components[i].as_str());
            let ghost found = text_of(stem);
            let name = name_of_stem(stem);
            let ghost path = components@[i as int]@;
            proof {
                if found is None {
                    assert(path.subrange(0int, 0int + name@.len()) =~= name@);
                }
                assert(holds_text(path, name@));
            }
            let component = default_component(name, components[i].clone());
            parts.push(component);
            i += 1;
        }
        default_config(parts)
    }

    /// Reads the imports and exports of an encoded module.
    pub fn analyze_component(&self, wasm_bytes: &[u8]) -> (r: Result<Interface, ParseError>)
        ensures
            match decode_spec(wasm_bytes@) {
                Err(e) => r == Err::<Interface, ParseError>(e),
                Ok(sections) => match r {
                    Ok(interface) => interface_spec(sections) == Ok::<InterfaceView, ParseError>(
                        interface@,
                    ),
                    Err(e) => interface_spec(sections) == Err::<InterfaceView, ParseError>(e),
                },
            },
    {
        match decode(wasm_bytes) {
            Err(e) => Err(e),
            Ok(module) => interface_of(&module),
        }
    }

    /// Composes encoded modules with the built-in engine and encodes the
    /// result. An input that does not decode makes the composition fail.
    pub fn manual_compose(&self, components: &Vec<Vec<u8>>, config: &CompositionConfig) -> (r:
        Result<Vec<u8>, LinkError>)
        ensures
            match r {
                Ok(bytes) => compose_bytes_spec(views(components@), config@) == Ok::<
                    Seq<u8>,
                    LinkErrorView,
                >(bytes@),
                Err(e) => compose_bytes_spec(views(components@), config@) == Err::<
                    Seq<u8>,
                    LinkErrorView,
                >(e@),
            },
    {
        if components.len() == 0 {
            return Err(LinkError::NoComponents);
        }
        let ghost inputs = views(components@);
        let mut modules: Vec<Module> = Vec::new();
        let mut k: usize = 0;
        proof {
            assert(views(modules@) =~= Seq::<Seq<SectionView>>::empty());
        }
        while k < components.len()
            invariant
                k <= components@.len(),
                inputs == views(components@),
                decode_all_spec(inputs, k as int) == Ok::<Seq<Seq<SectionView>>, Fault>(
                    views(modules@),
                ),
            decreases components@.len() - k,
        {
            let ghost before = views(modules@);
            proof {
                assert(inputs[k as int] == components@[k as int]@);
            }
            match decode(components[k].as_slice()) {
                Err(e) => {
                    proof {
                        lemma_decode_all_fails(inputs, k as int, inputs.len() as int);
                    }
                    return Err(LinkError::Malformed { component: k, error: e });
                },
                Ok(module) => {
                    modules.push(module);
                    proof {
                        assert(views(modules@) =~= before.push(module@));
                    }
                },
            }
            k += 1;
        }
        match compose(&modules, config) {
            Err(e) => Err(e),
            Ok(module) => Ok(encode(&module)),
        }
    }
}

/// Composing nothing fails with `NoComponents`, whatever the configuration,
/// and nothing else fails so.
pub proof fn lemma_no_components(modules: Seq<Seq<SectionView>>, config: CompositionConfigView)
    ensures
        modules.len() == 0 <==> link_spec(modules, config) == Err::<
            Seq<SectionView>,
            LinkErrorView,
        >(LinkErrorView::NoComponents),
{
    if modules.len() > 0 {
        match interfaces_spec(modules, modules.len() as int) {
            Err(fault) => {},
            Ok(interfaces) => {},
        }
    }
}

/// Under the automatic strategy, modules that can be read and of which one
/// has an import whose name two exports of other modules bear are not
/// composed: the composition fails with `AmbiguousImport`, and the name of
/// the import is among the names reported.
pub proof fn lemma_ambiguous_import_fails(
    modules: Seq<Seq<SectionView>>,
    config: CompositionConfigView,
    importer: int,
    import: int,
)
    requires
        config.strategy == LinkStrategy::Auto,
        interfaces_spec(modules, modules.len() as int) matches Ok(interfaces) && 0 <= importer
            < interfaces.len() && 0 <= import < interfaces[importer].imports.len() && is_ambiguous(
            interfaces,
            importer,
            import,
        ),
    ensures
        link_spec(modules, config) matches Err(LinkErrorView::AmbiguousImport(names))
            && names.contains(
            interfaces_spec(modules, modules.len() as int)->Ok_0[importer].imports[import].name,
        ),
{
    let interfaces = interfaces_spec(modules, modules.len() as int)->Ok_0;
    lemma_ambiguity_is_reported(interfaces, importer, import);
}

/// Under the manual strategy, a connection from a component that exists,
/// which names an export that this component does not have, makes the
/// composition fail with `UnresolvedConnection`, and the name of the export
/// is among the names reported, whatever else the connection names.
pub proof fn lemma_missing_export_fails(
    modules: Seq<Seq<SectionView>>,
    config: CompositionConfigView,
    at: int,
)
    requires
        modules.len() > 0,
        config.strategy == LinkStrategy::Manual,
        0 <= at < config.connections.len(),
        interfaces_spec(modules, modules.len() as int) matches Ok(interfaces) && (component_named(
            config.components,
            interfaces.len() as int,
            config.connections[at].from,
            0,
        ) matches Some(from) && count_offers(
            interfaces[from].exports,
            encode_utf8(config.connections[at].export),
            interfaces[from].exports.len() as int,
        ) == 0),
    ensures
        link_spec(modules, config) matches Err(LinkErrorView::UnresolvedConnection(names))
            && names.contains(config.connections[at].export),
{
    let interfaces = interfaces_spec(modules, modules.len() as int)->Ok_0;
    lemma_missing_export_is_reported(interfaces, config.components, config.connections, at);
}

/// The space whose defined items the entries of a kind are. Function bodies
/// belong to the functions that the function section declares.
pub open spec fn space_of_entries(kind: EntryKind) -> Space {
    match kind {
        EntryKind::Type => Space::Type,
        EntryKind::Function => Space::Function,
        EntryKind::Table => Space::Table,
        EntryKind::Memory => Space::Memory,
        EntryKind::Global => Space::Global,
        EntryKind::Element => Space::Element,
        EntryKind::Body => Space::Function,
        EntryKind::Data => Space::Data,
    }
}

/// The sections of the linked module hold as many entries as the layout
/// counts: the section of types, functions, tables, memories, globals,
/// element segments and data segments holds what the components define in
/// that space, so that every new index that the layout hands out for a
/// defined item names an entry.
pub proof fn lemma_gathered_counts(
    kind: EntryKind,
    modules: Seq<Seq<SectionView>>,
    interfaces: Seq<InterfaceView>,
    bindings: Seq<Seq<Binding>>,
    maps: Seq<IndexMapView>,
    upto: int,
)
    requires
        kind != EntryKind::Body,
        0 <= upto <= modules.len(),
        shapes_spec(modules, interfaces, bindings, modules.len() as int) is Ok,
        gathered(kind, modules, maps, upto) is Ok,
    ensures
        gathered(kind, modules, maps, upto)->Ok_0.count == defined_before(
            shapes_spec(modules, interfaces, bindings, modules.len() as int)->Ok_0,
            space_of_entries(kind),
            upto,
        ),
    decreases upto,
{
    let all = modules.len() as int;
    let shapes = shapes_spec(modules, interfaces, bindings, all)->Ok_0;
    lemma_shapes_entries(modules, interfaces, bindings, all);
    if upto > 0 {
        lemma_gathered_counts(kind, modules, interfaces, bindings, maps, upto - 1);
        assert(shape_spec(modules[upto - 1], interfaces[upto - 1].imports, bindings[upto - 1])
            == Ok::<Shape, Defect>(shapes[upto - 1]));
    }
}

/// The shapes of a run of modules are the shapes of the modules.
pub proof fn lemma_shapes_entries(
    modules: Seq<Seq<SectionView>>,
    interfaces: Seq<InterfaceView>,
    bindings: Seq<Seq<Binding>>,
    upto: int,
)
    requires
        0 <= upto <= modules.len(),
        shapes_spec(modules, interfaces, bindings, upto) is Ok,
    ensures
        shapes_spec(modules, interfaces, bindings, upto)->Ok_0.len() == upto,
        forall|k: int|
            0 <= k < upto ==> #[trigger] shape_spec(
                modules[k],
                interfaces[k].imports,
                bindings[k],
            ) == Ok::<Shape, Defect>(shapes_spec(modules, interfaces, bindings, upto)->Ok_0[k]),
    decreases upto,
{
    if upto > 0 {
        lemma_shapes_entries(modules, interfaces, bindings, upto - 1);
    }
}

} // verus!
