//! The layout of the linked module: what each component brings and where it
//! goes.
//!
//! Every index space of the linked module that can be imported into
//! (functions, tables, memories, globals) holds the imports that stay
//! external, component by component, and then what the components define,
//! component by component. The spaces of types, element segments and data
//! segments hold what the components define, one component after the other.
//! A module has one start function at most, so one component only may bring
//! one.
//!
//! An import that is bound takes the index of the item that the export
//! names. Where the export names an item that its component imports, the
//! binding of that import is followed in turn, until an item is reached that
//! a component defines or that stays imported.

use crate::catalog::{
    count_spec, find_section, section_count, section_index, ExternKind, ImportEntry,
    ImportEntryView,
};
use crate::module::{views, Module, ParseError, ParseErrorReason, Section, SectionKind, SectionView};
use crate::resolver::{binding_in_range, bindings_wf, Binding, Interface, InterfaceView};
use crate::rewrite::{
    space_of, target, IndexMap, IndexMapView, Space, SpaceMap, SpaceMapView,
};
use vstd::prelude::*;

verus! {

/// Why a component cannot be linked although it can be read.
#[derive(Clone, Copy, Debug, PartialEq, Eq, Structural)]
pub enum Refusal {
    /// The component holds a section of a kind that is not known.
    UnknownSection,
    /// The component holds two sections of one structural kind.
    RepeatedSection,
    /// The component imports a tag.
    TagImport,
    /// The component has a start function, and an earlier component has one.
    SecondStart,
    /// An import is bound to an export that names an imported item, which is
    /// bound in the same way, and so on, for more steps than the components
    /// have imports: nothing defines the item.
    EndlessBinding,
    /// Two components export the same name.
    RepeatedExport,
    /// An import was bound to an export of another kind.
    KindMismatch,
}

/// What is wrong with one component.
#[derive(Clone, Copy, Debug, PartialEq, Eq, Structural)]
pub enum Defect {
    /// A section cannot be read, or refers to something that the component
    /// does not have.
    Malformed(ParseError),
    /// The component asks for something that linking does not do.
    Unsupported(Refusal),
}

/// What stopped the linking of components that could be resolved.
#[derive(Clone, Copy, Debug, PartialEq, Eq, Structural)]
pub enum Fault {
    /// The component with the given position among the inputs has a defect.
    Component { component: usize, defect: Defect },
    /// The linked module would hold more items of one index space than an
    /// index of 32 bits can name.
    TooManyItems,
}

/// What one component brings to one index space.
#[derive(Clone, Copy, Debug, PartialEq, Eq, Structural)]
pub struct Counts {
    /// The number of items that the component imports.
    pub imports: u32,
    /// The number of imported items that stay imports.
    pub external: u32,
    /// The number of items that the component defines.
    pub defined: u32,
}

/// What one component brings, as far as the layout depends on it.
#[derive(Clone, Copy, Debug, PartialEq, Eq, Structural)]
pub struct Shape {
    pub functions: Counts,
    pub tables: Counts,
    pub memories: Counts,
    pub globals: Counts,
    /// The number of types.
    pub types: u32,
    /// The number of element segments.
    pub elements: u32,
    /// The number of data segments.
    pub data: u32,
    /// Whether the component has a start function.
    pub start: bool,
}

/// Counts of a space into which nothing is imported.
pub open spec fn defined_only(defined: u32) -> Counts {
    Counts { imports: 0, external: 0, defined }
}

/// What the component brings to the space.
pub open spec fn counts_in(shape: Shape, space: Space) -> Counts {
    match space {
        Space::Function => shape.functions,
        Space::Table => shape.tables,
        Space::Memory => shape.memories,
        Space::Global => shape.globals,
        Space::Type => defined_only(shape.types),
        Space::Element => defined_only(shape.elements),
        Space::Data => defined_only(shape.data),
    }
}

/// The space that imports and exports of a kind belong to. Tags have none
/// here.
pub open spec fn kind_space(kind: ExternKind) -> Option<Space> {
    match kind {
        ExternKind::Function => Some(Space::Function),
        ExternKind::Table => Some(Space::Table),
        ExternKind::Memory => Some(Space::Memory),
        ExternKind::Global => Some(Space::Global),
        ExternKind::Tag => None,
    }
}

/// The identifier of the section that holds the number of data segments.
/// The section is not among the structural kinds of the model, but linking
/// knows it and carries it along with the data segments.
pub const DATA_COUNT_ID: u8 = 12;

/// The index of the first data count section at or after `from`.
pub open spec fn data_count_index(sections: Seq<SectionView>, from: int) -> Option<int>
    decreases sections.len() - from,
{
    if from < 0 || from >= sections.len() {
        None
    } else if sections[from] matches SectionView::Unknown { id, .. } && id == DATA_COUNT_ID {
        Some(from)
    } else {
        data_count_index(sections, from + 1)
    }
}

/// The first section at or after `from` that linking refuses: one of unknown
/// kind other than the data count, or one of a kind that an earlier section
/// has.
pub open spec fn refused_section(sections: Seq<SectionView>, from: int) -> Option<Refusal>
    decreases sections.len() - from,
{
    if from < 0 || from >= sections.len() {
        None
    } else {
        match sections[from] {
            SectionView::Unknown { id, .. } => if id != DATA_COUNT_ID {
                Some(Refusal::UnknownSection)
            } else if data_count_index(sections, 0) != Some(from) {
                Some(Refusal::RepeatedSection)
            } else {
                refused_section(sections, from + 1)
            },
            SectionView::Standard { kind, .. } => if section_index(sections, kind, 0) != Some(
                from,
            ) {
                Some(Refusal::RepeatedSection)
            } else {
                refused_section(sections, from + 1)
            },
            SectionView::Custom { .. } => refused_section(sections, from + 1),
        }
    }
}

/// How many of the first `upto` imports are of the given kind.
pub open spec fn count_kind(imports: Seq<ImportEntryView>, kind: ExternKind, upto: int) -> nat
    decreases upto,
{
    if upto <= 0 || upto > imports.len() {
        0
    } else {
        count_kind(imports, kind, upto - 1) + if imports[upto - 1].kind == kind {
            1nat
        } else {
            0nat
        }
    }
}

/// How many of the first `upto` imports belong to the space.
pub open spec fn count_in(imports: Seq<ImportEntryView>, space: Space, upto: int) -> nat
    decreases upto,
{
    if upto <= 0 || upto > imports.len() {
        0
    } else {
        count_in(imports, space, upto - 1) + if kind_space(imports[upto - 1].kind) == Some(space) {
            1nat
        } else {
            0nat
        }
    }
}

/// How many of the first `upto` imports belong to the space and stay imports.
pub open spec fn count_unbound(
    imports: Seq<ImportEntryView>,
    bindings: Seq<Binding>,
    space: Space,
    upto: int,
) -> nat
    decreases upto,
{
    if upto <= 0 || upto > imports.len() {
        0
    } else {
        count_unbound(imports, bindings, space, upto - 1) + if kind_space(imports[upto - 1].kind)
            == Some(space) && bindings[upto - 1] is External {
            1nat
        } else {
            0nat
        }
    }
}

/// The module has a section of the structural kind.
pub open spec fn has_section(sections: Seq<SectionView>, kind: SectionKind) -> bool {
    section_index(sections, kind, 0) is Some
}

/// What the component brings to a space into which it may import.
pub open spec fn counted(
    imports: Seq<ImportEntryView>,
    bindings: Seq<Binding>,
    space: Space,
    defined: u32,
) -> Counts {
    Counts {
        imports: count_in(imports, space, imports.len() as int) as u32,
        external: count_unbound(imports, bindings, space, imports.len() as int) as u32,
        defined,
    }
}

/// What the sections of a component define: the counts that open the
/// sections of functions, tables, memories, globals, types, element segments
/// and data segments, in this order, or the error of the first that cannot
/// be read. Nothing is said of imports here.
pub open spec fn defined_spec(sections: Seq<SectionView>) -> Result<Shape, ParseError> {
    match count_spec(sections, SectionKind::Function) {
        Err(e) => Err(e),
        Ok(functions) => match count_spec(sections, SectionKind::Table) {
            Err(e) => Err(e),
            Ok(tables) => match count_spec(sections, SectionKind::Memory) {
                Err(e) => Err(e),
                Ok(memories) => match count_spec(sections, SectionKind::Global) {
                    Err(e) => Err(e),
                    Ok(globals) => match count_spec(sections, SectionKind::Type) {
                        Err(e) => Err(e),
                        Ok(types) => match count_spec(sections, SectionKind::Element) {
                            Err(e) => Err(e),
                            Ok(elements) => match count_spec(sections, SectionKind::Data) {
                                Err(e) => Err(e),
                                Ok(data) => Ok(
                                    Shape {
                                        functions: defined_only(functions),
                                        tables: defined_only(tables),
                                        memories: defined_only(memories),
                                        globals: defined_only(globals),
                                        types,
                                        elements,
                                        data,
                                        start: has_section(sections, SectionKind::Start),
                                    },
                                ),
                            },
                        },
                    },
                },
            },
        },
    }
}

/// The shape of a component, or why it cannot be linked. The sections are
/// checked first, then the counts that open them are read, then the imports
/// are counted.
pub open spec fn shape_spec(
    sections: Seq<SectionView>,
    imports: Seq<ImportEntryView>,
    bindings: Seq<Binding>,
) -> Result<Shape, Defect> {
    match refused_section(sections, 0) {
        Some(refusal) => Err(Defect::Unsupported(refusal)),
        None => match defined_spec(sections) {
            Err(e) => Err(Defect::Malformed(e)),
            Ok(defined) => if count_kind(imports, ExternKind::Tag, imports.len() as int) > 0 {
                Err(Defect::Unsupported(Refusal::TagImport))
            } else if imports.len() > u32::MAX {
                Err(
                    Defect::Malformed(
                        ParseError { offset: 0, reason: ParseErrorReason::OutOfRange },
                    ),
                )
            } else {
                Ok(
                    Shape {
                        functions: counted(
                            imports,
                            bindings,
                            Space::Function,
                            defined.functions.defined,
                        ),
                        tables: counted(imports, bindings, Space::Table, defined.tables.defined),
                        memories: counted(
                            imports,
                            bindings,
                            Space::Memory,
                            defined.memories.defined,
                        ),
                        globals: counted(imports, bindings, Space::Global, defined.globals.defined),
                        ..defined
                    },
                )
            },
        },
    }
}

/// The shape counts the imports under the bindings, space by space.
pub open spec fn shape_fits(shape: Shape, imports: Seq<ImportEntryView>, bindings: Seq<Binding>)
    -> bool {
    &&& imports.len() <= u32::MAX
    &&& forall|space: Space|
        (#[trigger] counts_in(shape, space)).imports == count_in(
            imports,
            space,
            imports.len() as int,
        ) && counts_in(shape, space).external == count_unbound(
            imports,
            bindings,
            space,
            imports.len() as int,
        )
}

/// The counts of imports are bounded by the number of imports, and no more
/// stay imports than there are.
pub proof fn lemma_counts_bounded(
    imports: Seq<ImportEntryView>,
    bindings: Seq<Binding>,
    space: Space,
    upto: int,
)
    requires
        0 <= upto <= imports.len(),
    ensures
        count_unbound(imports, bindings, space, upto) <= count_in(imports, space, upto) <= upto,
    decreases upto,
{
    if upto > 0 {
        lemma_counts_bounded(imports, bindings, space, upto - 1);
    }
}

/// Nothing is imported into the spaces of types and segments.
pub proof fn lemma_nothing_imported(
    imports: Seq<ImportEntryView>,
    bindings: Seq<Binding>,
    space: Space,
    upto: int,
)
    requires
        space == Space::Type || space == Space::Element || space == Space::Data,
    ensures
        count_in(imports, space, upto) == 0,
        count_unbound(imports, bindings, space, upto) == 0,
    decreases upto,
{
    if 0 < upto <= imports.len() {
        lemma_nothing_imported(imports, bindings, space, upto - 1);
    }
}

/// A shape that is taken from a component counts its imports.
pub proof fn lemma_shape_fits(
    sections: Seq<SectionView>,
    imports: Seq<ImportEntryView>,
    bindings: Seq<Binding>,
)
    requires
        shape_spec(sections, imports, bindings) is Ok,
    ensures
        shape_fits(shape_spec(sections, imports, bindings)->Ok_0, imports, bindings),
{
    let shape = shape_spec(sections, imports, bindings)->Ok_0;
    let all = imports.len() as int;
    assert forall|space: Space|
        (#[trigger] counts_in(shape, space)).imports == count_in(imports, space, all) && counts_in(
            shape,
            space,
        ).external == count_unbound(imports, bindings, space, all) by {
        lemma_counts_bounded(imports, bindings, space, all);
        if space == Space::Type || space == Space::Element || space == Space::Data {
            lemma_nothing_imported(imports, bindings, space, all);
        }
    }
}

/// Finds the first data count section.
pub fn find_data_count(module: &Module) -> (r: Option<usize>)
    ensures
        match r {
            Some(i) => data_count_index(module@, 0) == Some(i as int) && i < module.sections@.len()
                && (module.sections@[i as int] matches Section::Unknown { id, .. } && id
                == DATA_COUNT_ID),
            None => data_count_index(module@, 0) is None,
        },
{
    let mut i: usize = 0;
    while i < module.sections.len()
        invariant
            i <= module.sections@.len(),
            data_count_index(module@, 0) == data_count_index(module@, i as int),
        decreases module.sections@.len() - i,
    {
        proof {
            assert(module@[i as int] == module.sections@[i as int]@);
        }
        match &module.sections[i] {
            Section::Unknown { id, .. } => {
                if *id == DATA_COUNT_ID {
                    return Some(i);
                }
            },
            _ => {},
        }
        i += 1;
    }
    None
}

/// Looks for a section that linking refuses.
fn check_sections(module: &Module) -> (r: Option<Refusal>)
    ensures
        r == refused_section(module@, 0),
{
    let mut i: usize = 0;
    while i < module.sections.len()
        invariant
            i <= module.sections@.len(),
            refused_section(module@, 0) == refused_section(module@, i as int),
        decreases module.sections@.len() - i,
    {
        proof {
            assert(module@[i as int] == module.sections@[i as int]@);
        }
        match &module.sections[i] {
            Section::Unknown { id, .. } => {
                if *id != DATA_COUNT_ID {
                    return Some(Refusal::UnknownSection);
                }
                match find_data_count(module) {
                    Some(first) => {
                        if first != i {
                            return Some(Refusal::RepeatedSection);
                        }
                    },
                    None => {
                        return Some(Refusal::RepeatedSection);
                    },
                }
            },
            Section::Standard { kind, .. } => {
                match find_section(module, *kind) {
                    Some(first) => {
                        if first != i {
                            return Some(Refusal::RepeatedSection);
                        }
                    },
                    None => {
                        return Some(Refusal::RepeatedSection);
                    },
                }
            },
            Section::Custom { .. } => {},
        }
        i += 1;
    }
    None
}

fn read_defined(module: &Module) -> (r: Result<Shape, ParseError>)
    ensures
        r == defined_spec(module@),
{
    let functions = match section_count(module, SectionKind::Function) {
        Err(e) => {
            return Err(e);
        },
        Ok(n) => n,
    };
    let tables = match section_count(module, SectionKind::Table) {
        Err(e) => {
            return Err(e);
        },
        Ok(n) => n,
    };
    let memories = match section_count(module, SectionKind::Memory) {
        Err(e) => {
            return Err(e);
        },
        Ok(n) => n,
    };
    let globals = match section_count(module, SectionKind::Global) {
        Err(e) => {
            return Err(e);
        },
        Ok(n) => n,
    };
    let types = match section_count(module, SectionKind::Type) {
        Err(e) => {
            return Err(e);
        },
        Ok(n) => n,
    };
    let elements = match section_count(module, SectionKind::Element) {
        Err(e) => {
            return Err(e);
        },
        Ok(n) => n,
    };
    let data = match section_count(module, SectionKind::Data) {
        Err(e) => {
            return Err(e);
        },
        Ok(n) => n,
    };
    Ok(
        Shape {
            functions: Counts { imports: 0, external: 0, defined: functions },
            tables: Counts { imports: 0, external: 0, defined: tables },
            memories: Counts { imports: 0, external: 0, defined: memories },
            globals: Counts { imports: 0, external: 0, defined: globals },
            types,
            elements,
            data,
            start: find_section(module, SectionKind::Start).is_some(),
        },
    )
}

/// The space that imports and exports of a kind belong to.
pub fn space_of_kind(kind: ExternKind) -> (r: Option<Space>)
    ensures
        r == kind_space(kind),
{
    match kind {
        ExternKind::Function => Some(Space::Function),
        ExternKind::Table => Some(Space::Table),
        ExternKind::Memory => Some(Space::Memory),
        ExternKind::Global => Some(Space::Global),
        ExternKind::Tag => None,
    }
}

fn in_space(kind: ExternKind, space: Space) -> (r: bool)
    ensures
        r == (kind_space(kind) == Some(space)),
{
    match (kind, space) {
        (ExternKind::Function, Space::Function) => true,
        (ExternKind::Table, Space::Table) => true,
        (ExternKind::Memory, Space::Memory) => true,
        (ExternKind::Global, Space::Global) => true,
        _ => false,
    }
}

/// Counts the imports that belong to a space, and those among them that stay
/// imports.
fn count_imports(imports: &Vec<ImportEntry>, bindings: &Vec<Binding>, space: Space) -> (r: (
    u64,
    u64,
))
    requires
        bindings@.len() == imports@.len(),
    ensures
        r.0 == count_in(views(imports@), space, imports@.len() as int),
        r.1 == count_unbound(views(imports@), bindings@, space, imports@.len() as int),
        r.1 <= r.0 <= imports@.len(),
{
    let ghost all = views(imports@);
    let mut found: u64 = 0;
    let mut external: u64 = 0;
    let mut j: usize = 0;
    while j < imports.len()
        invariant
            j <= imports@.len(),
            bindings@.len() == imports@.len(),
            all == views(imports@),
            found == count_in(all, space, j as int),
            external == count_unbound(all, bindings@, space, j as int),
            external <= found <= j,
        decreases imports@.len() - j,
    {
        proof {
            assert(all[j as int] == imports@[j as int]@);
        }
        if in_space(imports[j].kind, space) {
            found = found + 1;
            match bindings[j] {
                Binding::External => {
                    external = external + 1;
                },
                Binding::Internal { .. } => {},
            }
        }
        j += 1;
    }
    (found, external)
}

fn count_tags(imports: &Vec<ImportEntry>) -> (r: bool)
    ensures
        r == (count_kind(views(imports@), ExternKind::Tag, imports@.len() as int) > 0),
{
    let ghost all = views(imports@);
    let mut j: usize = 0;
    while j < imports.len()
        invariant
            j <= imports@.len(),
            all == views(imports@),
            count_kind(all, ExternKind::Tag, j as int) == 0,
        decreases imports@.len() - j,
    {
        proof {
            assert(all[j as int] == imports@[j as int]@);
            lemma_tags_stay(all, j + 1, imports@.len() as int);
        }
        match imports[j].kind {
            ExternKind::Tag => {
                return true;
            },
            _ => {},
        }
        j += 1;
    }
    false
}

proof fn lemma_tags_stay(imports: Seq<ImportEntryView>, a: int, b: int)
    requires
        0 <= a <= b <= imports.len(),
    ensures
        count_kind(imports, ExternKind::Tag, a) <= count_kind(imports, ExternKind::Tag, b),
    decreases b - a,
{
    if a < b {
        lemma_tags_stay(imports, a, b - 1);
    }
}

fn counts_for(
    imports: &Vec<ImportEntry>,
    bindings: &Vec<Binding>,
    space: Space,
    defined: u32,
) -> (r: Counts)
    requires
        bindings@.len() == imports@.len(),
        imports@.len() <= u32::MAX,
    ensures
        r == counted(views(imports@), bindings@, space, defined),
        r.imports == count_in(views(imports@), space, imports@.len() as int),
        r.external == count_unbound(views(imports@), bindings@, space, imports@.len() as int),
{
    let (found, external) = count_imports(imports, bindings, space);
    Counts { imports: found as u32, external: external as u32, defined }
}

/// Takes the shape of a component.
pub fn shape_of(module: &Module, interface: &Interface, bindings: &Vec<Binding>) -> (r: Result<
    Shape,
    Defect,
>)
    requires
        bindings@.len() == interface.imports@.len(),
    ensures
        r == shape_spec(module@, interface@.imports, bindings@),
        r matches Ok(shape) ==> shape_fits(shape, interface@.imports, bindings@),
{
    match check_sections(module) {
        Some(refusal) => {
            return Err(Defect::Unsupported(refusal));
        },
        None => {},
    }
    let defined = match read_defined(module) {
        Err(e) => {
            return Err(Defect::Malformed(e));
        },
        Ok(shape) => shape,
    };
    if count_tags(&interface.imports) {
        return Err(Defect::Unsupported(Refusal::TagImport));
    }
    if interface.imports.len() > u32::MAX as usize {
        return Err(
            Defect::Malformed(ParseError { offset: 0, reason: ParseErrorReason::OutOfRange }),
        );
    }
    let imports = &interface.imports;
    let shape = Shape {
        functions: counts_for(imports, bindings, Space::Function, defined.functions.defined),
        tables: counts_for(imports, bindings, Space::Table, defined.tables.defined),
        memories: counts_for(imports, bindings, Space::Memory, defined.memories.defined),
        globals: counts_for(imports, bindings, Space::Global, defined.globals.defined),
        types: defined.types,
        elements: defined.elements,
        data: defined.data,
        start: defined.start,
    };
    proof {
        let seen = interface@.imports;
        assert forall|space: Space|
            (#[trigger] counts_in(shape, space)).imports == count_in(
                seen,
                space,
                seen.len() as int,
            ) && counts_in(shape, space).external == count_unbound(
                seen,
                bindings@,
                space,
                seen.len() as int,
            ) by {
            if space == Space::Type || space == Space::Element || space == Space::Data {
                lemma_nothing_imported(seen, bindings@, space, seen.len() as int);
            }
        }
    }
    Ok(shape)
}

/// The first component at or after `from` that has a start function.
pub open spec fn first_start(shapes: Seq<Shape>, from: int) -> Option<int>
    decreases shapes.len() - from,
{
    if from < 0 || from >= shapes.len() {
        None
    } else if shapes[from].start {
        Some(from)
    } else {
        first_start(shapes, from + 1)
    }
}

/// The second component that has a start function.
pub open spec fn second_start(shapes: Seq<Shape>) -> Option<int> {
    match first_start(shapes, 0) {
        None => None,
        Some(first) => first_start(shapes, first + 1),
    }
}

/// The number of items of a space that stay imported in the first `k`
/// components.
pub open spec fn externals_before(shapes: Seq<Shape>, space: Space, k: int) -> nat
    decreases k,
{
    if k <= 0 || k > shapes.len() {
        0
    } else {
        externals_before(shapes, space, k - 1) + counts_in(shapes[k - 1], space).external as nat
    }
}

/// The number of items of a space that the first `k` components define.
pub open spec fn defined_before(shapes: Seq<Shape>, space: Space, k: int) -> nat
    decreases k,
{
    if k <= 0 || k > shapes.len() {
        0
    } else {
        defined_before(shapes, space, k - 1) + counts_in(shapes[k - 1], space).defined as nat
    }
}

/// The number of items that a space has in the linked module.
pub open spec fn total(shapes: Seq<Shape>, space: Space) -> nat {
    externals_before(shapes, space, shapes.len() as int) + defined_before(
        shapes,
        space,
        shapes.len() as int,
    )
}

/// Some space would hold more items than an index of 32 bits can name.
pub open spec fn too_many(shapes: Seq<Shape>) -> bool {
    ||| total(shapes, Space::Function) > u32::MAX
    ||| total(shapes, Space::Table) > u32::MAX
    ||| total(shapes, Space::Memory) > u32::MAX
    ||| total(shapes, Space::Global) > u32::MAX
    ||| total(shapes, Space::Type) > u32::MAX
    ||| total(shapes, Space::Element) > u32::MAX
    ||| total(shapes, Space::Data) > u32::MAX
}

/// The fault of a component that asks for something that linking does not do.
pub open spec fn refused(component: int, reason: Refusal) -> Fault {
    Fault::Component { component: component as usize, defect: Defect::Unsupported(reason) }
}

/// The fault of a component that refers to something that is not there.
pub open spec fn out_of_range(component: int) -> Fault {
    Fault::Component {
        component: component as usize,
        defect: Defect::Malformed(ParseError { offset: 0, reason: ParseErrorReason::OutOfRange }),
    }
}

/// The import that stands at `place` among the imports of the space, sought
/// among the first `upto` imports.
pub open spec fn import_at(imports: Seq<ImportEntryView>, space: Space, place: int, upto: int)
    -> Option<int>
    decreases upto,
{
    if upto <= 0 || upto > imports.len() {
        None
    } else if kind_space(imports[upto - 1].kind) == Some(space) && count_in(
        imports,
        space,
        upto - 1,
    ) == place {
        Some(upto - 1)
    } else {
        import_at(imports, space, place, upto - 1)
    }
}

/// The number of imports of the first `upto` components.
pub open spec fn imports_before(interfaces: Seq<InterfaceView>, upto: int) -> nat
    decreases upto,
{
    if upto <= 0 || upto > interfaces.len() {
        0
    } else {
        imports_before(interfaces, upto - 1) + interfaces[upto - 1].imports.len()
    }
}

/// The number of steps for which bindings are followed from one export of an
/// imported item to the next: the number of imports of all components, as
/// far as the machine can count.
pub open spec fn chain_limit(interfaces: Seq<InterfaceView>) -> nat {
    let all = imports_before(interfaces, interfaces.len() as int);
    if all > usize::MAX {
        usize::MAX as nat
    } else {
        all
    }
}

/// The new index of the item that the import `j` of the component `k`
/// stands for in its space, when bindings are followed for `fuel` steps at
/// most. An import that stays external takes its place among the external
/// imports of the space. A bound import takes the place of the item that the
/// export names, which must be of the same space: an item that the exporting
/// component defines has its place among the defined items, and an item
/// that the exporting component imports is followed in turn.
pub open spec fn bound_target(
    shapes: Seq<Shape>,
    interfaces: Seq<InterfaceView>,
    bindings: Seq<Seq<Binding>>,
    k: int,
    j: int,
    space: Space,
    fuel: nat,
) -> Result<u32, Fault>
    decreases fuel,
{
    match bindings[k][j] {
        Binding::External => Ok(
            (externals_before(shapes, space, k) + count_unbound(
                interfaces[k].imports,
                bindings[k],
                space,
                j,
            )) as u32,
        ),
        Binding::Internal { component, export } => {
            let offered = interfaces[component as int].exports[export as int];
            let brought = counts_in(shapes[component as int], space);
            let others = interfaces[component as int].imports;
            if kind_space(offered.kind) != Some(space) {
                Err(refused(k, Refusal::KindMismatch))
            } else if offered.index < brought.imports {
                if fuel == 0 {
                    Err(refused(component as int, Refusal::EndlessBinding))
                } else {
                    match import_at(others, space, offered.index as int, others.len() as int) {
                        None => Err(out_of_range(component as int)),
                        Some(next) => bound_target(
                            shapes,
                            interfaces,
                            bindings,
                            component as int,
                            next,
                            space,
                            (fuel - 1) as nat,
                        ),
                    }
                }
            } else if offered.index - brought.imports >= brought.defined {
                Err(out_of_range(component as int))
            } else {
                Ok(
                    (externals_before(shapes, space, shapes.len() as int) + defined_before(
                        shapes,
                        space,
                        component as int,
                    ) + (offered.index - brought.imports)) as u32,
                )
            }
        },
    }
}

/// The new index of the item that the import `j` of the component `k`
/// stands for in its space.
pub open spec fn import_target(
    shapes: Seq<Shape>,
    interfaces: Seq<InterfaceView>,
    bindings: Seq<Seq<Binding>>,
    k: int,
    j: int,
    space: Space,
) -> Result<u32, Fault> {
    bound_target(shapes, interfaces, bindings, k, j, space, chain_limit(interfaces))
}

/// The new indices of the items of a space among the first `upto` imports of
/// the component `k`, in the order of the imports.
pub open spec fn import_targets(
    shapes: Seq<Shape>,
    interfaces: Seq<InterfaceView>,
    bindings: Seq<Seq<Binding>>,
    k: int,
    space: Space,
    upto: int,
) -> Result<Seq<u32>, Fault>
    decreases upto,
{
    if upto <= 0 || upto > interfaces[k].imports.len() {
        Ok(Seq::empty())
    } else {
        match import_targets(shapes, interfaces, bindings, k, space, upto - 1) {
            Err(fault) => Err(fault),
            Ok(before) => if kind_space(interfaces[k].imports[upto - 1].kind) != Some(space) {
                Ok(before)
            } else {
                match import_target(shapes, interfaces, bindings, k, upto - 1, space) {
                    Err(fault) => Err(fault),
                    Ok(new) => Ok(before.push(new)),
                }
            },
        }
    }
}

/// The map of one space of the component `k`.
pub open spec fn space_map_spec(
    shapes: Seq<Shape>,
    interfaces: Seq<InterfaceView>,
    bindings: Seq<Seq<Binding>>,
    k: int,
    space: Space,
) -> Result<SpaceMapView, Fault> {
    match import_targets(
        shapes,
        interfaces,
        bindings,
        k,
        space,
        interfaces[k].imports.len() as int,
    ) {
        Err(fault) => Err(fault),
        Ok(imports) => Ok(
            SpaceMapView {
                imports,
                first_defined: (externals_before(shapes, space, shapes.len() as int)
                    + defined_before(shapes, space, k)) as u32,
                defined: counts_in(shapes[k], space).defined,
            },
        ),
    }
}

/// The index map of the component `k`: the maps of its spaces, made in the
/// order functions, tables, memories, globals, types, element segments, data
/// segments.
pub open spec fn index_map_spec(
    shapes: Seq<Shape>,
    interfaces: Seq<InterfaceView>,
    bindings: Seq<Seq<Binding>>,
    k: int,
) -> Result<IndexMapView, Fault> {
    match space_map_spec(shapes, interfaces, bindings, k, Space::Function) {
        Err(fault) => Err(fault),
        Ok(functions) => match space_map_spec(shapes, interfaces, bindings, k, Space::Table) {
            Err(fault) => Err(fault),
            Ok(tables) => match space_map_spec(shapes, interfaces, bindings, k, Space::Memory) {
                Err(fault) => Err(fault),
                Ok(memories) => match space_map_spec(
                    shapes,
                    interfaces,
                    bindings,
                    k,
                    Space::Global,
                ) {
                    Err(fault) => Err(fault),
                    Ok(globals) => match space_map_spec(
                        shapes,
                        interfaces,
                        bindings,
                        k,
                        Space::Type,
                    ) {
                        Err(fault) => Err(fault),
                        Ok(types) => match space_map_spec(
                            shapes,
                            interfaces,
                            bindings,
                            k,
                            Space::Element,
                        ) {
                            Err(fault) => Err(fault),
                            Ok(elements) => match space_map_spec(
                                shapes,
                                interfaces,
                                bindings,
                                k,
                                Space::Data,
                            ) {
                                Err(fault) => Err(fault),
                                Ok(data) => Ok(
                                    IndexMapView {
                                        functions,
                                        tables,
                                        memories,
                                        globals,
                                        types,
                                        elements,
                                        data,
                                    },
                                ),
                            },
                        },
                    },
                },
            },
        },
    }
}

/// The index maps of the first `upto` components.
pub open spec fn index_maps(
    shapes: Seq<Shape>,
    interfaces: Seq<InterfaceView>,
    bindings: Seq<Seq<Binding>>,
    upto: int,
) -> Result<Seq<IndexMapView>, Fault>
    decreases upto,
{
    if upto <= 0 || upto > shapes.len() {
        Ok(Seq::empty())
    } else {
        match index_maps(shapes, interfaces, bindings, upto - 1) {
            Err(fault) => Err(fault),
            Ok(before) => match index_map_spec(shapes, interfaces, bindings, upto - 1) {
                Err(fault) => Err(fault),
                Ok(map) => Ok(before.push(map)),
            },
        }
    }
}

/// The layout of the linked module: an index map for each component. No
/// layout exists when a second component has a start function, when some
/// space would hold too many items, or when a bound import cannot be given
/// what it was bound to.
pub open spec fn layout_spec(
    shapes: Seq<Shape>,
    interfaces: Seq<InterfaceView>,
    bindings: Seq<Seq<Binding>>,
) -> Result<Seq<IndexMapView>, Fault> {
    match second_start(shapes) {
        Some(k) => Err(refused(k, Refusal::SecondStart)),
        None => if too_many(shapes) {
            Err(Fault::TooManyItems)
        } else {
            index_maps(shapes, interfaces, bindings, shapes.len() as int)
        },
    }
}

/// The shapes count the imports of the interfaces under the bindings.
pub open spec fn shapes_fit(
    shapes: Seq<Shape>,
    interfaces: Seq<InterfaceView>,
    bindings: Seq<Seq<Binding>>,
) -> bool {
    &&& shapes.len() == interfaces.len()
    &&& forall|k: int|
        0 <= k < shapes.len() ==> shape_fits(
            #[trigger] shapes[k],
            interfaces[k].imports,
            bindings[k],
        )
}

/// The sums grow with the number of components.
pub proof fn lemma_sums_grow(shapes: Seq<Shape>, space: Space, a: int, b: int)
    requires
        0 <= a <= b <= shapes.len(),
    ensures
        externals_before(shapes, space, a) <= externals_before(shapes, space, b),
        defined_before(shapes, space, a) <= defined_before(shapes, space, b),
    decreases b - a,
{
    if a < b {
        lemma_sums_grow(shapes, space, a, b - 1);
    }
}

/// What a component defines goes to a run of new indices that is its own
/// and lies inside the space.
pub proof fn lemma_defined_targets_in_range(shapes: Seq<Shape>, space: Space, k: int, offset: int)
    requires
        0 <= k < shapes.len(),
        0 <= offset < counts_in(shapes[k], space).defined,
    ensures
        externals_before(shapes, space, shapes.len() as int) + defined_before(shapes, space, k)
            + offset < total(shapes, space),
        externals_before(shapes, space, shapes.len() as int) + defined_before(shapes, space, k)
            <= total(shapes, space),
{
    lemma_sums_grow(shapes, space, k + 1, shapes.len() as int);
}

/// The count of imports that stay imports grows along the imports.
pub proof fn lemma_count_unbound_grows(
    imports: Seq<ImportEntryView>,
    bindings: Seq<Binding>,
    space: Space,
    a: int,
    b: int,
)
    requires
        0 <= a <= b <= imports.len(),
    ensures
        count_unbound(imports, bindings, space, a) <= count_unbound(imports, bindings, space, b),
    decreases b - a,
{
    if a < b {
        lemma_count_unbound_grows(imports, bindings, space, a, b - 1);
    }
}

/// The count of imports of a space grows along the imports, and strictly
/// over an import of the space.
pub proof fn lemma_count_in_grows(imports: Seq<ImportEntryView>, space: Space, a: int, b: int)
    requires
        0 <= a <= b <= imports.len(),
    ensures
        count_in(imports, space, a) <= count_in(imports, space, b) <= b,
        0 <= a < b && kind_space(imports[a].kind) == Some(space) ==> count_in(imports, space, a)
            < count_in(imports, space, b),
    decreases b - a,
{
    if a < b {
        lemma_count_in_grows(imports, space, a, b - 1);
    } else {
        lemma_counts_bounded(imports, Seq::empty(), space, a);
    }
}

/// The import that stands at a place is an import of the space, and the
/// imports of the space before it are as many as the place says.
pub proof fn lemma_import_at_stands(
    imports: Seq<ImportEntryView>,
    space: Space,
    place: int,
    upto: int,
)
    ensures
        import_at(imports, space, place, upto) matches Some(j) ==> 0 <= j < upto && upto
            <= imports.len() && kind_space(imports[j].kind) == Some(space) && count_in(
            imports,
            space,
            j,
        ) == place,
    decreases upto,
{
    if 0 < upto <= imports.len() {
        lemma_import_at_stands(imports, space, place, upto - 1);
    }
}

/// An import of the space is the import that stands at its place.
pub proof fn lemma_import_at_found(imports: Seq<ImportEntryView>, space: Space, j: int, upto: int)
    requires
        0 <= j < upto <= imports.len(),
        kind_space(imports[j].kind) == Some(space),
    ensures
        import_at(imports, space, count_in(imports, space, j) as int, upto) == Some(j),
    decreases upto,
{
    if upto - 1 > j {
        lemma_count_in_grows(imports, space, j, upto - 1);
        lemma_import_at_found(imports, space, j, upto - 1);
    }
}

/// No import stands at a place that the imports of the space do not reach.
pub proof fn lemma_import_at_none(
    imports: Seq<ImportEntryView>,
    space: Space,
    place: int,
    upto: int,
)
    requires
        0 <= upto <= imports.len(),
        count_in(imports, space, upto) <= place,
    ensures
        import_at(imports, space, place, upto) is None,
    decreases upto,
{
    if upto > 0 {
        lemma_import_at_none(imports, space, place, upto - 1);
    }
}

fn find_start(shapes: &Vec<Shape>, from: usize) -> (r: Option<usize>)
    ensures
        match r {
            Some(k) => first_start(shapes@, from as int) == Some(k as int) && from <= k
                < shapes@.len() <= usize::MAX,
            None => first_start(shapes@, from as int) is None,
        },
{
    let mut k: usize = from;
    while k < shapes.len()
        invariant
            from <= k,
            first_start(shapes@, from as int) == first_start(shapes@, k as int),
        decreases shapes@.len() - k,
    {
        if shapes[k].start {
            return Some(k);
        }
        k += 1;
    }
    None
}

fn find_second_start(shapes: &Vec<Shape>) -> (r: Option<usize>)
    ensures
        match r {
            Some(k) => second_start(shapes@) == Some(k as int),
            None => second_start(shapes@) is None,
        },
{
    match find_start(shapes, 0) {
        None => None,
        Some(first) => find_start(shapes, first + 1),
    }
}

fn counts_of(shape: &Shape, space: Space) -> (r: Counts)
    ensures
        r == counts_in(*shape, space),
{
    match space {
        Space::Function => shape.functions,
        Space::Table => shape.tables,
        Space::Memory => shape.memories,
        Space::Global => shape.globals,
        Space::Type => Counts { imports: 0, external: 0, defined: shape.types },
        Space::Element => Counts { imports: 0, external: 0, defined: shape.elements },
        Space::Data => Counts { imports: 0, external: 0, defined: shape.data },
    }
}

/// The running sums of one space: for each component the number of external
/// imports and of defined items before it.
struct Starts {
    externals: Vec<u32>,
    defined: Vec<u32>,
    total_externals: u32,
}

/// The running sums are those of the shapes.
spec fn starts_fit(starts: Starts, shapes: Seq<Shape>, space: Space) -> bool {
    &&& total(shapes, space) <= u32::MAX
    &&& starts.externals@.len() == shapes.len()
    &&& starts.defined@.len() == shapes.len()
    &&& starts.total_externals == externals_before(shapes, space, shapes.len() as int)
    &&& forall|k: int|
        0 <= k < shapes.len() ==> #[trigger] starts.externals@[k] == externals_before(
            shapes,
            space,
            k,
        )
    &&& forall|k: int|
        0 <= k < shapes.len() ==> #[trigger] starts.defined@[k] == defined_before(shapes, space, k)
}

fn running_sums(shapes: &Vec<Shape>, space: Space) -> (r: Option<Starts>)
    ensures
        match r {
            None => total(shapes@, space) > u32::MAX,
            Some(starts) => starts_fit(starts, shapes@, space),
        },
{
    let mut externals: Vec<u32> = Vec::new();
    let mut defined: Vec<u32> = Vec::new();
    let mut sum_externals: u64 = 0;
    let mut sum_defined: u64 = 0;
    let mut k: usize = 0;
    while k < shapes.len()
        invariant
            k <= shapes@.len(),
            externals@.len() == k,
            defined@.len() == k,
            sum_externals == externals_before(shapes@, space, k as int),
            sum_defined == defined_before(shapes@, space, k as int),
            sum_externals + sum_defined <= u32::MAX,
            forall|i: int|
                0 <= i < k ==> #[trigger] externals@[i] == externals_before(shapes@, space, i),
            forall|i: int| 0 <= i < k ==> #[trigger] defined@[i] == defined_before(shapes@, space, i),
        decreases shapes@.len() - k,
    {
        externals.push(sum_externals as u32);
        defined.push(sum_defined as u32);
        let brought = counts_of(&shapes[k], space);
        sum_externals = sum_externals + brought.external as u64;
        sum_defined = sum_defined + brought.defined as u64;
        if sum_externals + sum_defined > u32::MAX as u64 {
            proof {
                lemma_sums_grow(shapes@, space, k + 1, shapes@.len() as int);
            }
            return None;
        }
        k += 1;
    }
    Some(Starts { externals, defined, total_externals: sum_externals as u32 })
}

/// The running sums of all spaces.
struct AllStarts {
    functions: Starts,
    tables: Starts,
    memories: Starts,
    globals: Starts,
    types: Starts,
    elements: Starts,
    data: Starts,
}

spec fn all_starts_fit(starts: AllStarts, shapes: Seq<Shape>) -> bool {
    &&& starts_fit(starts.functions, shapes, Space::Function)
    &&& starts_fit(starts.tables, shapes, Space::Table)
    &&& starts_fit(starts.memories, shapes, Space::Memory)
    &&& starts_fit(starts.globals, shapes, Space::Global)
    &&& starts_fit(starts.types, shapes, Space::Type)
    &&& starts_fit(starts.elements, shapes, Space::Element)
    &&& starts_fit(starts.data, shapes, Space::Data)
}

fn all_running_sums(shapes: &Vec<Shape>) -> (r: Option<AllStarts>)
    ensures
        match r {
            None => too_many(shapes@),
            Some(starts) => all_starts_fit(starts, shapes@) && !too_many(shapes@),
        },
{
    let functions = match running_sums(shapes, Space::Function) {
        None => {
            return None;
        },
        Some(s) => s,
    };
    let tables = match running_sums(shapes, Space::Table) {
        None => {
            return None;
        },
        Some(s) => s,
    };
    let memories = match running_sums(shapes, Space::Memory) {
        None => {
            return None;
        },
        Some(s) => s,
    };
    let globals = match running_sums(shapes, Space::Global) {
        None => {
            return None;
        },
        Some(s) => s,
    };
    let types = match running_sums(shapes, Space::Type) {
        None => {
            return None;
        },
        Some(s) => s,
    };
    let elements = match running_sums(shapes, Space::Element) {
        None => {
            return None;
        },
        Some(s) => s,
    };
    let data = match running_sums(shapes, Space::Data) {
        None => {
            return None;
        },
        Some(s) => s,
    };
    Some(AllStarts { functions, tables, memories, globals, types, elements, data })
}

/// Counts the imports of all components, as far as the machine can count.
fn chain_limit_of(interfaces: &Vec<Interface>) -> (r: usize)
    ensures
        r == chain_limit(views(interfaces@)),
{
    let ghost all = views(interfaces@);
    let mut sum: usize = 0;
    let mut k: usize = 0;
    while k < interfaces.len()
        invariant
            k <= interfaces@.len(),
            all == views(interfaces@),
            sum == if imports_before(all, k as int) > usize::MAX {
                usize::MAX as nat
            } else {
                imports_before(all, k as int)
            },
        decreases interfaces@.len() - k,
    {
        proof {
            assert(all[k as int] == interfaces@[k as int]@);
            assert(all[k as int].imports.len() == interfaces@[k as int].imports@.len());
        }
        let more = interfaces[k].imports.len();
        sum = if more > usize::MAX - sum {
            usize::MAX
        } else {
            sum + more
        };
        k += 1;
    }
    sum
}

/// Finds the import that stands at `place` among the imports of the space,
/// and counts the imports of the space before it that stay imports.
fn find_import(imports: &Vec<ImportEntry>, bindings: &Vec<Binding>, space: Space, place: u32) -> (r:
    Option<(usize, u32)>)
    requires
        bindings@.len() == imports@.len(),
        imports@.len() <= u32::MAX,
    ensures
        match r {
            Some((j, seen)) => import_at(
                views(imports@),
                space,
                place as int,
                imports@.len() as int,
            ) == Some(j as int) && j < imports@.len() && kind_space(imports@[j as int]@.kind)
                == Some(space) && seen == count_unbound(views(imports@), bindings@, space, j as int),
            None => import_at(views(imports@), space, place as int, imports@.len() as int) is None,
        },
{
    let ghost all = views(imports@);
    let mut found: u32 = 0;
    let mut external: u32 = 0;
    let mut j: usize = 0;
    while j < imports.len()
        invariant
            j <= imports@.len(),
            bindings@.len() == imports@.len(),
            imports@.len() <= u32::MAX,
            all == views(imports@),
            found == count_in(all, space, j as int),
            external == count_unbound(all, bindings@, space, j as int),
            external <= found <= j,
            found <= place,
        decreases imports@.len() - j,
    {
        proof {
            assert(all[j as int] == imports@[j as int]@);
        }
        if in_space(imports[j].kind, space) {
            if found == place {
                proof {
                    lemma_import_at_found(all, space, j as int, imports@.len() as int);
                }
                return Some((j, external));
            }
            found = found + 1;
            match bindings[j] {
                Binding::External => {
                    external = external + 1;
                },
                Binding::Internal { .. } => {},
            }
        }
        j += 1;
    }
    proof {
        lemma_import_at_none(all, space, place as int, imports@.len() as int);
    }
    None
}

/// Gives the import `j` of the component `k`, which belongs to the space,
/// its new index, following bindings for `fuel` steps at most.
fn place_import(
    shapes: &Vec<Shape>,
    starts: &Starts,
    interfaces: &Vec<Interface>,
    bindings: &Vec<Vec<Binding>>,
    k: usize,
    j: usize,
    space: Space,
    seen: u32,
    fuel: usize,
) -> (r: Result<u32, Fault>)
    requires
        k < shapes@.len(),
        j < interfaces@[k as int].imports@.len(),
        shapes_fit(shapes@, views(interfaces@), views(bindings@)),
        bindings_wf(views(bindings@), views(interfaces@)),
        starts_fit(*starts, shapes@, space),
        kind_space(interfaces@[k as int].imports@[j as int].kind) == Some(space),
        seen == count_unbound(
            views(interfaces@)[k as int].imports,
            views(bindings@)[k as int],
            space,
            j as int,
        ),
    ensures
        r == bound_target(
            shapes@,
            views(interfaces@),
            views(bindings@),
            k as int,
            j as int,
            space,
            fuel as nat,
        ),
    decreases fuel,
{
    let ghost all = views(interfaces@);
    let ghost bound = views(bindings@);
    proof {
        assert(all[k as int] == interfaces@[k as int]@);
        assert(bound[k as int] == bindings@[k as int]@);
        assert(all[k as int].imports[j as int] == interfaces@[k as int].imports@[j as int]@);
        assert(binding_in_range(bound[k as int][j as int], all));
        assert(shape_fits(shapes@[k as int], all[k as int].imports, bound[k as int]));
        assert(counts_in(shapes@[k as int], space).external == count_unbound(
            all[k as int].imports,
            bound[k as int],
            space,
            all[k as int].imports.len() as int,
        ));
        lemma_sums_grow(shapes@, space, k + 1, shapes@.len() as int);
        lemma_count_unbound_grows(
            all[k as int].imports,
            bound[k as int],
            space,
            j + 1,
            all[k as int].imports.len() as int,
        );
    }
    match bindings[k][j] {
        Binding::External => Ok(starts.externals[k] + seen),
        Binding::Internal { component, export } => {
            proof {
                assert(all[component as int] == interfaces@[component as int]@);
                assert(bound[component as int] == bindings@[component as int]@);
                assert(all[component as int].imports == views(
                    interfaces@[component as int].imports@,
                ));
                assert(all[component as int].exports[export as int]
                    == interfaces@[component as int].exports@[export as int]@);
                assert(shape_fits(
                    shapes@[component as int],
                    all[component as int].imports,
                    bound[component as int],
                ));
            }
            let offered = &interfaces[component].exports[export];
            let brought = counts_of(&shapes[component], space);
            if !in_space(offered.kind, space) {
                return Err(
                    Fault::Component {
                        component: k,
                        defect: Defect::Unsupported(Refusal::KindMismatch),
                    },
                );
            }
            if offered.index < brought.imports {
                if fuel == 0 {
                    return Err(
                        Fault::Component {
                            component,
                            defect: Defect::Unsupported(Refusal::EndlessBinding),
                        },
                    );
                }
                return match find_import(
                    &interfaces[component].imports,
                    &bindings[component],
                    space,
                    offered.index,
                ) {
                    None => Err(
                        Fault::Component {
                            component,
                            defect: Defect::Malformed(
                                ParseError { offset: 0, reason: ParseErrorReason::OutOfRange },
                            ),
                        },
                    ),
                    Some((next, before)) => place_import(
                        shapes,
                        starts,
                        interfaces,
                        bindings,
                        component,
                        next,
                        space,
                        before,
                        fuel - 1,
                    ),
                };
            }
            if offered.index - brought.imports >= brought.defined {
                return Err(
                    Fault::Component {
                        component,
                        defect: Defect::Malformed(
                            ParseError { offset: 0, reason: ParseErrorReason::OutOfRange },
                        ),
                    },
                );
            }
            proof {
                lemma_defined_targets_in_range(
                    shapes@,
                    space,
                    component as int,
                    (offered.index - brought.imports) as int,
                );
            }
            Ok(
                starts.total_externals + starts.defined[component] + (offered.index
                    - brought.imports),
            )
        },
    }
}

/// Builds the map of one space of one component.
fn build_space(
    shapes: &Vec<Shape>,
    starts: &Starts,
    interfaces: &Vec<Interface>,
    bindings: &Vec<Vec<Binding>>,
    k: usize,
    space: Space,
) -> (r: Result<SpaceMap, Fault>)
    requires
        k < shapes@.len(),
        shapes_fit(shapes@, views(interfaces@), views(bindings@)),
        bindings_wf(views(bindings@), views(interfaces@)),
        starts_fit(*starts, shapes@, space),
    ensures
        match r {
            Ok(map) => space_map_spec(
                shapes@,
                views(interfaces@),
                views(bindings@),
                k as int,
                space,
            ) == Ok::<SpaceMapView, Fault>(map@),
            Err(fault) => space_map_spec(
                shapes@,
                views(interfaces@),
                views(bindings@),
                k as int,
                space,
            ) == Err::<SpaceMapView, Fault>(fault),
        },
{
    let ghost all = views(interfaces@);
    let ghost bound = views(bindings@);
    let imports = &interfaces[k].imports;
    proof {
        assert(all[k as int] == interfaces@[k as int]@);
        assert(bound[k as int] == bindings@[k as int]@);
        lemma_defined_targets_in_range_or_empty(shapes@, space, k as int);
    }
    let limit = chain_limit_of(interfaces);
    let mut targets: Vec<u32> = Vec::new();
    let mut seen: u32 = 0;
    let mut j: usize = 0;
    while j < imports.len()
        invariant
            j <= imports@.len(),
            k < shapes@.len(),
            limit == chain_limit(views(interfaces@)),
            all == views(interfaces@),
            bound == views(bindings@),
            imports == &interfaces@[k as int].imports,
            all[k as int].imports == views(imports@),
            bound[k as int] == bindings@[k as int]@,
            shapes_fit(shapes@, all, bound),
            bindings_wf(bound, all),
            starts_fit(*starts, shapes@, space),
            seen == count_unbound(all[k as int].imports, bound[k as int], space, j as int),
            seen <= j,
            import_targets(shapes@, all, bound, k as int, space, j as int) == Ok::<
                Seq<u32>,
                Fault,
            >(targets@),
        decreases imports@.len() - j,
    {
        proof {
            assert(all[k as int].imports[j as int] == imports@[j as int]@);
            lemma_counts_bounded(all[k as int].imports, bound[k as int], space, j + 1);
            assert(shape_fits(shapes@[k as int], all[k as int].imports, bound[k as int]));
        }
        if in_space(imports[j].kind, space) {
            match place_import(shapes, starts, interfaces, bindings, k, j, space, seen, limit) {
                Err(fault) => {
                    proof {
                        lemma_import_targets_fail(
                            shapes@,
                            all,
                            bound,
                            k as int,
                            space,
                            j as int,
                            imports@.len() as int,
                        );
                    }
                    return Err(fault);
                },
                Ok(new) => {
                    targets.push(new);
                    match bindings[k][j] {
                        Binding::External => {
                            seen = seen + 1;
                        },
                        Binding::Internal { .. } => {},
                    }
                },
            }
        }
        j += 1;
    }
    Ok(
        SpaceMap {
            imports: targets,
            first_defined: starts.total_externals + starts.defined[k],
            defined: counts_of(&shapes[k], space).defined,
        },
    )
}

/// The first item that a component defines has a new index that fits.
proof fn lemma_defined_targets_in_range_or_empty(shapes: Seq<Shape>, space: Space, k: int)
    requires
        0 <= k < shapes.len(),
    ensures
        externals_before(shapes, space, shapes.len() as int) + defined_before(shapes, space, k)
            <= total(shapes, space),
{
    lemma_sums_grow(shapes, space, k, shapes.len() as int);
}

/// Builds the index map of one component.
fn build_map(
    shapes: &Vec<Shape>,
    starts: &AllStarts,
    interfaces: &Vec<Interface>,
    bindings: &Vec<Vec<Binding>>,
    k: usize,
) -> (r: Result<IndexMap, Fault>)
    requires
        k < shapes@.len(),
        shapes_fit(shapes@, views(interfaces@), views(bindings@)),
        bindings_wf(views(bindings@), views(interfaces@)),
        all_starts_fit(*starts, shapes@),
    ensures
        match r {
            Ok(map) => index_map_spec(shapes@, views(interfaces@), views(bindings@), k as int)
                == Ok::<IndexMapView, Fault>(map@),
            Err(fault) => index_map_spec(shapes@, views(interfaces@), views(bindings@), k as int)
                == Err::<IndexMapView, Fault>(fault),
        },
{
    let functions = match build_space(
        shapes,
        &starts.functions,
        interfaces,
        bindings,
        k,
        Space::Function,
    ) {
        Err(fault) => {
            return Err(fault);
        },
        Ok(map) => map,
    };
    let tables = match build_space(shapes, &starts.tables, interfaces, bindings, k, Space::Table) {
        Err(fault) => {
            return Err(fault);
        },
        Ok(map) => map,
    };
    let memories = match build_space(
        shapes,
        &starts.memories,
        interfaces,
        bindings,
        k,
        Space::Memory,
    ) {
        Err(fault) => {
            return Err(fault);
        },
        Ok(map) => map,
    };
    let globals = match build_space(
        shapes,
        &starts.globals,
        interfaces,
        bindings,
        k,
        Space::Global,
    ) {
        Err(fault) => {
            return Err(fault);
        },
        Ok(map) => map,
    };
    let types = match build_space(shapes, &starts.types, interfaces, bindings, k, Space::Type) {
        Err(fault) => {
            return Err(fault);
        },
        Ok(map) => map,
    };
    let elements = match build_space(
        shapes,
        &starts.elements,
        interfaces,
        bindings,
        k,
        Space::Element,
    ) {
        Err(fault) => {
            return Err(fault);
        },
        Ok(map) => map,
    };
    let data = match build_space(shapes, &starts.data, interfaces, bindings, k, Space::Data) {
        Err(fault) => {
            return Err(fault);
        },
        Ok(map) => map,
    };
    Ok(IndexMap { functions, tables, memories, globals, types, elements, data })
}

/// Lays the linked module out.
pub fn layout(shapes: &Vec<Shape>, interfaces: &Vec<Interface>, bindings: &Vec<Vec<Binding>>) -> (r:
    Result<Vec<IndexMap>, Fault>)
    requires
        shapes_fit(shapes@, views(interfaces@), views(bindings@)),
        bindings_wf(views(bindings@), views(interfaces@)),
    ensures
        match r {
            Ok(maps) => layout_spec(shapes@, views(interfaces@), views(bindings@)) == Ok::<
                Seq<IndexMapView>,
                Fault,
            >(views(maps@)) && maps@.len() == shapes@.len(),
            Err(fault) => layout_spec(shapes@, views(interfaces@), views(bindings@)) == Err::<
                Seq<IndexMapView>,
                Fault,
            >(fault),
        },
{
    match find_second_start(shapes) {
        Some(k) => {
            return Err(
                Fault::Component {
                    component: k,
                    defect: Defect::Unsupported(Refusal::SecondStart),
                },
            );
        },
        None => {},
    }
    let starts = match all_running_sums(shapes) {
        None => {
            return Err(Fault::TooManyItems);
        },
        Some(s) => s,
    };
    let ghost all = views(interfaces@);
    let ghost bound = views(bindings@);
    let mut maps: Vec<IndexMap> = Vec::new();
    let mut k: usize = 0;
    proof {
        assert(views(maps@) =~= Seq::<IndexMapView>::empty());
    }
    while k < shapes.len()
        invariant
            k <= shapes@.len(),
            all == views(interfaces@),
            bound == views(bindings@),
            shapes_fit(shapes@, all, bound),
            bindings_wf(bound, all),
            all_starts_fit(starts, shapes@),
            !too_many(shapes@),
            maps@.len() == k,
            second_start(shapes@) is None,
            index_maps(shapes@, all, bound, k as int) == Ok::<Seq<IndexMapView>, Fault>(
                views(maps@),
            ),
        decreases shapes@.len() - k,
    {
        let ghost before = views(maps@);
        match build_map(shapes, &starts, interfaces, bindings, k) {
            Err(fault) => {
                proof {
                    lemma_index_maps_fail(shapes@, all, bound, k as int, shapes@.len() as int);
                }
                return Err(fault);
            },
            Ok(map) => {
                maps.push(map);
                proof {
                    assert(views(maps@) =~= before.push(map@));
                }
            },
        }
        k += 1;
    }
    Ok(maps)
}

/// When an import cannot be placed, the imports of any run that holds it
/// cannot either, and the fault is the same.
proof fn lemma_import_targets_fail(
    shapes: Seq<Shape>,
    interfaces: Seq<InterfaceView>,
    bindings: Seq<Seq<Binding>>,
    k: int,
    space: Space,
    j: int,
    upto: int,
)
    requires
        0 <= j < upto <= interfaces[k].imports.len(),
        import_targets(shapes, interfaces, bindings, k, space, j) is Ok,
        kind_space(interfaces[k].imports[j].kind) == Some(space),
        import_target(shapes, interfaces, bindings, k, j, space) is Err,
    ensures
        import_targets(shapes, interfaces, bindings, k, space, upto) == Err::<Seq<u32>, Fault>(
            import_target(shapes, interfaces, bindings, k, j, space)->Err_0,
        ),
    decreases upto - j,
{
    if upto > j + 1 {
        lemma_import_targets_fail(shapes, interfaces, bindings, k, space, j, upto - 1);
    }
}

/// When the map of a component cannot be built, neither can the maps of any
/// run of components that holds it, and the fault is the same.
proof fn lemma_index_maps_fail(
    shapes: Seq<Shape>,
    interfaces: Seq<InterfaceView>,
    bindings: Seq<Seq<Binding>>,
    k: int,
    upto: int,
)
    requires
        0 <= k < upto <= shapes.len(),
        index_maps(shapes, interfaces, bindings, k) is Ok,
        index_map_spec(shapes, interfaces, bindings, k) is Err,
    ensures
        index_maps(shapes, interfaces, bindings, upto) == Err::<Seq<IndexMapView>, Fault>(
            index_map_spec(shapes, interfaces, bindings, k)->Err_0,
        ),
    decreases upto - k,
{
    if upto > k + 1 {
        lemma_index_maps_fail(shapes, interfaces, bindings, k, upto - 1);
    }
}

/// The new indices of the imported items of a space stand in the order of
/// the imports of that space: the import at `j` finds its new index at the
/// place that the imports of the space before it leave.
pub proof fn lemma_import_targets_places(
    shapes: Seq<Shape>,
    interfaces: Seq<InterfaceView>,
    bindings: Seq<Seq<Binding>>,
    k: int,
    space: Space,
    upto: int,
)
    requires
        0 <= upto <= interfaces[k].imports.len(),
        import_targets(shapes, interfaces, bindings, k, space, upto) is Ok,
    ensures
        import_targets(shapes, interfaces, bindings, k, space, upto)->Ok_0.len() == count_in(
            interfaces[k].imports,
            space,
            upto,
        ),
        forall|j: int|
            0 <= j < upto && kind_space(interfaces[k].imports[j].kind) == Some(space)
                ==> #[trigger] import_target(shapes, interfaces, bindings, k, j, space) == Ok::<
                u32,
                Fault,
            >(
                import_targets(shapes, interfaces, bindings, k, space, upto)->Ok_0[count_in(
                    interfaces[k].imports,
                    space,
                    j,
                ) as int],
            ),
    decreases upto,
{
    if upto > 0 {
        lemma_import_targets_places(shapes, interfaces, bindings, k, space, upto - 1);
        let imports = interfaces[k].imports;
        assert forall|j: int|
            0 <= j < upto && kind_space(imports[j].kind) == Some(space) implies #[trigger] import_target(
            shapes,
            interfaces,
            bindings,
            k,
            j,
            space,
        ) == Ok::<u32, Fault>(
            import_targets(shapes, interfaces, bindings, k, space, upto)->Ok_0[count_in(
                imports,
                space,
                j,
            ) as int],
        ) by {
            if j < upto - 1 {
                lemma_count_in_grows(imports, space, j, upto - 1);
            }
        }
    }
}

/// The maps of a layout are the maps of its components.
pub proof fn lemma_index_maps_entries(
    shapes: Seq<Shape>,
    interfaces: Seq<InterfaceView>,
    bindings: Seq<Seq<Binding>>,
    upto: int,
)
    requires
        0 <= upto <= shapes.len(),
        index_maps(shapes, interfaces, bindings, upto) is Ok,
    ensures
        index_maps(shapes, interfaces, bindings, upto)->Ok_0.len() == upto,
        forall|k: int|
            0 <= k < upto ==> #[trigger] index_map_spec(shapes, interfaces, bindings, k) == Ok::<
                IndexMapView,
                Fault,
            >(index_maps(shapes, interfaces, bindings, upto)->Ok_0[k]),
    decreases upto,
{
    if upto > 0 {
        lemma_index_maps_entries(shapes, interfaces, bindings, upto - 1);
    }
}

/// The map of a space in the map of a component is the map of that space.
pub proof fn lemma_space_of_map(
    shapes: Seq<Shape>,
    interfaces: Seq<InterfaceView>,
    bindings: Seq<Seq<Binding>>,
    k: int,
    space: Space,
)
    requires
        index_map_spec(shapes, interfaces, bindings, k) is Ok,
    ensures
        space_map_spec(shapes, interfaces, bindings, k, space) == Ok::<SpaceMapView, Fault>(
            space_of(index_map_spec(shapes, interfaces, bindings, k)->Ok_0, space),
        ),
{
}

/// Where bindings can be followed with some fuel, more fuel changes nothing.
pub proof fn lemma_bound_target_settles(
    shapes: Seq<Shape>,
    interfaces: Seq<InterfaceView>,
    bindings: Seq<Seq<Binding>>,
    k: int,
    j: int,
    space: Space,
    fuel: nat,
    more: nat,
)
    requires
        fuel <= more,
        bound_target(shapes, interfaces, bindings, k, j, space, fuel) is Ok,
    ensures
        bound_target(shapes, interfaces, bindings, k, j, space, more) == bound_target(
            shapes,
            interfaces,
            bindings,
            k,
            j,
            space,
            fuel,
        ),
    decreases fuel,
{
    if let Binding::Internal { component, export } = bindings[k][j] {
        let offered = interfaces[component as int].exports[export as int];
        let brought = counts_in(shapes[component as int], space);
        let others = interfaces[component as int].imports;
        if kind_space(offered.kind) == Some(space) && offered.index < brought.imports {
            let next = import_at(others, space, offered.index as int, others.len() as int)->Some_0;
            lemma_bound_target_settles(
                shapes,
                interfaces,
                bindings,
                component as int,
                next,
                space,
                (fuel - 1) as nat,
                (more - 1) as nat,
            );
        }
    }
}

/// The new index of an imported item names an item that the linked module
/// has in the space.
pub proof fn lemma_bound_target_in_range(
    shapes: Seq<Shape>,
    interfaces: Seq<InterfaceView>,
    bindings: Seq<Seq<Binding>>,
    k: int,
    j: int,
    space: Space,
    fuel: nat,
)
    requires
        shapes_fit(shapes, interfaces, bindings),
        bindings_wf(bindings, interfaces),
        total(shapes, space) <= u32::MAX,
        0 <= k < interfaces.len(),
        0 <= j < interfaces[k].imports.len(),
        kind_space(interfaces[k].imports[j].kind) == Some(space),
        bound_target(shapes, interfaces, bindings, k, j, space, fuel) is Ok,
    ensures
        bound_target(shapes, interfaces, bindings, k, j, space, fuel)->Ok_0 < total(shapes, space),
    decreases fuel,
{
    let all = shapes.len() as int;
    let imports = interfaces[k].imports;
    assert(binding_in_range(bindings[k][j], interfaces));
    match bindings[k][j] {
        Binding::External => {
            assert(shape_fits(shapes[k], imports, bindings[k]));
            lemma_count_unbound_grows(imports, bindings[k], space, j + 1, imports.len() as int);
            lemma_sums_grow(shapes, space, k + 1, all);
        },
        Binding::Internal { component, export } => {
            let offered = interfaces[component as int].exports[export as int];
            let brought = counts_in(shapes[component as int], space);
            let others = interfaces[component as int].imports;
            if offered.index < brought.imports {
                let next = import_at(others, space, offered.index as int, others.len() as int)->Some_0;
                lemma_import_at_stands(others, space, offered.index as int, others.len() as int);
                lemma_bound_target_in_range(
                    shapes,
                    interfaces,
                    bindings,
                    component as int,
                    next,
                    space,
                    (fuel - 1) as nat,
                );
            } else {
                lemma_defined_targets_in_range(
                    shapes,
                    space,
                    component as int,
                    offered.index - brought.imports,
                );
            }
        },
    }
}

/// A bound import and the export that it is bound to name the same item of
/// the linked module: every reference to the import is rewritten to the
/// index to which references to the exported item are rewritten, and the
/// linked module has an item of this index.
pub proof fn lemma_bound_import_meets_export(
    shapes: Seq<Shape>,
    interfaces: Seq<InterfaceView>,
    bindings: Seq<Seq<Binding>>,
    k: int,
    j: int,
    space: Space,
)
    requires
        shapes_fit(shapes, interfaces, bindings),
        bindings_wf(bindings, interfaces),
        layout_spec(shapes, interfaces, bindings) is Ok,
        0 <= k < interfaces.len(),
        0 <= j < interfaces[k].imports.len(),
        kind_space(interfaces[k].imports[j].kind) == Some(space),
        bindings[k][j] is Internal,
    ensures
        ({
            let maps = layout_spec(shapes, interfaces, bindings)->Ok_0;
            let place = count_in(interfaces[k].imports, space, j);
            let component = bindings[k][j]->component as int;
            let export = interfaces[component].exports[bindings[k][j]->export as int];
            &&& place < space_of(maps[k], space).imports.len()
            &&& kind_space(export.kind) == Some(space)
            &&& target(maps[k], space, place as u32) == target(maps[component], space, export.index)
            &&& target(maps[k], space, place as u32) matches Some(new) && new < total(shapes, space)
        }),
{
    let all = shapes.len() as int;
    let maps = layout_spec(shapes, interfaces, bindings)->Ok_0;
    let imports = interfaces[k].imports;
    let place = count_in(imports, space, j);
    let component = bindings[k][j]->component as int;
    let export = interfaces[component].exports[bindings[k][j]->export as int];
    let others = interfaces[component].imports;
    let limit = chain_limit(interfaces);
    assert(binding_in_range(bindings[k][j], interfaces));
    lemma_index_maps_entries(shapes, interfaces, bindings, all);
    assert(index_map_spec(shapes, interfaces, bindings, k) == Ok::<IndexMapView, Fault>(maps[k]));
    assert(index_map_spec(shapes, interfaces, bindings, component) == Ok::<IndexMapView, Fault>(
        maps[component],
    ));
    lemma_space_of_map(shapes, interfaces, bindings, k, space);
    lemma_space_of_map(shapes, interfaces, bindings, component, space);
    lemma_import_targets_places(shapes, interfaces, bindings, k, space, imports.len() as int);
    lemma_import_targets_places(shapes, interfaces, bindings, component, space, others.len() as int);
    lemma_count_in_grows(imports, space, j, imports.len() as int);
    assert(import_target(shapes, interfaces, bindings, k, j, space) == Ok::<u32, Fault>(
        space_of(maps[k], space).imports[place as int],
    ));
    let brought = counts_in(shapes[component], space);
    assert(shape_fits(shapes[component], others, bindings[component]));
    assert(brought.imports == space_of(maps[component], space).imports.len());
    assert(total(shapes, space) <= u32::MAX) by {
        assert(!too_many(shapes));
        match space {
            Space::Function => {},
            Space::Table => {},
            Space::Memory => {},
            Space::Global => {},
            Space::Type => {},
            Space::Element => {},
            Space::Data => {},
        }
    }
    lemma_bound_target_in_range(shapes, interfaces, bindings, k, j, space, limit);
    if export.index < brought.imports {
        let next = import_at(others, space, export.index as int, others.len() as int)->Some_0;
        lemma_import_at_stands(others, space, export.index as int, others.len() as int);
        assert(import_target(shapes, interfaces, bindings, component, next, space) == Ok::<
            u32,
            Fault,
        >(space_of(maps[component], space).imports[export.index as int]));
        lemma_bound_target_settles(
            shapes,
            interfaces,
            bindings,
            component,
            next,
            space,
            (limit - 1) as nat,
            limit,
        );
    } else {
        lemma_defined_targets_in_range(shapes, space, component, export.index - brought.imports);
    }
}

/// Every place below the number of imports of a space is the place of one of
/// them.
proof fn lemma_place_has_import(
    imports: Seq<ImportEntryView>,
    space: Space,
    place: int,
    upto: int,
)
    requires
        0 <= upto <= imports.len(),
        0 <= place < count_in(imports, space, upto),
    ensures
        exists|j: int|
            0 <= j < upto && kind_space(imports[j].kind) == Some(space) && count_in(
                imports,
                space,
                j,
            ) == place,
    decreases upto,
{
    if upto > 0 {
        if place < count_in(imports, space, upto - 1) {
            lemma_place_has_import(imports, space, place, upto - 1);
        } else {
            assert(kind_space(imports[upto - 1].kind) == Some(space));
            assert(count_in(imports, space, upto - 1) == place);
        }
    }
}

/// No reference is left dangling: every new index that a layout hands out
/// names an item that the linked module has in that space.
pub proof fn lemma_targets_in_range(
    shapes: Seq<Shape>,
    interfaces: Seq<InterfaceView>,
    bindings: Seq<Seq<Binding>>,
    k: int,
    space: Space,
    index: u32,
)
    requires
        shapes_fit(shapes, interfaces, bindings),
        bindings_wf(bindings, interfaces),
        layout_spec(shapes, interfaces, bindings) is Ok,
        0 <= k < shapes.len(),
    ensures
        target(layout_spec(shapes, interfaces, bindings)->Ok_0[k], space, index) matches Some(new)
            ==> new < total(shapes, space),
{
    let all = shapes.len() as int;
    let maps = layout_spec(shapes, interfaces, bindings)->Ok_0;
    let imports = interfaces[k].imports;
    lemma_index_maps_entries(shapes, interfaces, bindings, all);
    assert(index_map_spec(shapes, interfaces, bindings, k) == Ok::<IndexMapView, Fault>(maps[k]));
    lemma_space_of_map(shapes, interfaces, bindings, k, space);
    let map = space_of(maps[k], space);
    lemma_import_targets_places(shapes, interfaces, bindings, k, space, imports.len() as int);
    assert(shape_fits(shapes[k], imports, bindings[k]));
    if index < map.imports.len() {
        lemma_place_has_import(imports, space, index as int, imports.len() as int);
        let j = choose|j: int|
            0 <= j < imports.len() && kind_space(imports[j].kind) == Some(space) && count_in(
                imports,
                space,
                j,
            ) == index;
        assert(import_target(shapes, interfaces, bindings, k, j, space) == Ok::<u32, Fault>(
            map.imports[index as int],
        ));
        assert(total(shapes, space) <= u32::MAX) by {
            assert(!too_many(shapes));
            match space {
                Space::Function => {},
                Space::Table => {},
                Space::Memory => {},
                Space::Global => {},
                Space::Type => {},
                Space::Element => {},
                Space::Data => {},
            }
        }
        lemma_bound_target_in_range(
            shapes,
            interfaces,
            bindings,
            k,
            j,
            space,
            chain_limit(interfaces),
        );
    } else if index - map.imports.len() < map.defined {
        lemma_defined_targets_in_range(shapes, space, k, index - map.imports.len());
    }
}

} // verus!
