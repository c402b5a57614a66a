//! Resolution of imports against exports.
//!
//! An import is bound to an export of another component, or it stays an
//! import of the linked module. Imports and exports are matched by name
//! alone; whether what an export offers is of the kind that the import asks
//! for is examined when the linked module is laid out.

use crate::catalog::{ExportEntry, ExportEntryView, ImportEntry, ImportEntryView};
use crate::config::{ComponentConfig, ComponentConfigView, Connection, ConnectionView};
use crate::module::views;
use crate::optimizer::same_bytes;
use vstd::prelude::*;
use vstd::utf8::encode_utf8;

verus! {

/// What became of an import.
#[derive(Clone, Copy, Debug, PartialEq, Eq, Structural)]
pub enum Binding {
    /// The import stays an import of the linked module.
    External,
    /// The import is satisfied by the export with the given position in the
    /// export list of the given component.
    Internal { component: usize, export: usize },
}

/// The linkage points of one component.
#[derive(Clone, Debug, PartialEq, Eq)]
pub struct Interface {
    pub imports: Vec<ImportEntry>,
    pub exports: Vec<ExportEntry>,
}

/// The mathematical value of an [`Interface`].
pub struct InterfaceView {
    pub imports: Seq<ImportEntryView>,
    pub exports: Seq<ExportEntryView>,
}

impl View for Interface {
    type V = InterfaceView;

    open spec fn view(&self) -> InterfaceView {
        InterfaceView { imports: views(self.imports@), exports: views(self.exports@) }
    }
}

/// The export bears the given name.
pub open spec fn offers(export: ExportEntryView, name: Seq<u8>) -> bool {
    export.name == name
}

/// The import bears the given field name.
pub open spec fn asks(import: ImportEntryView, name: Seq<u8>) -> bool {
    import.name == name
}

/// How many of the first `upto` exports bear the name.
pub open spec fn count_offers(exports: Seq<ExportEntryView>, name: Seq<u8>, upto: int) -> nat
    decreases upto,
{
    if upto <= 0 || upto > exports.len() {
        0
    } else {
        count_offers(exports, name, upto - 1) + if offers(exports[upto - 1], name) {
            1nat
        } else {
            0nat
        }
    }
}

/// The position of the first export at or after `from` that bears the name.
pub open spec fn first_offer(exports: Seq<ExportEntryView>, name: Seq<u8>, from: int) -> Option<int>
    decreases exports.len() - from,
{
    if from < 0 || from >= exports.len() {
        None
    } else if offers(exports[from], name) {
        Some(from)
    } else {
        first_offer(exports, name, from + 1)
    }
}

/// How many of the first `upto` imports bear the field name.
pub open spec fn count_asks(imports: Seq<ImportEntryView>, name: Seq<u8>, upto: int) -> nat
    decreases upto,
{
    if upto <= 0 || upto > imports.len() {
        0
    } else {
        count_asks(imports, name, upto - 1) + if asks(imports[upto - 1], name) {
            1nat
        } else {
            0nat
        }
    }
}

/// The position of the first import at or after `from` that bears the
/// field name.
pub open spec fn first_ask(imports: Seq<ImportEntryView>, name: Seq<u8>, from: int) -> Option<int>
    decreases imports.len() - from,
{
    if from < 0 || from >= imports.len() {
        None
    } else if asks(imports[from], name) {
        Some(from)
    } else {
        first_ask(imports, name, from + 1)
    }
}

/// How many exports of the first `upto` components, the importer left out,
/// bear the name.
pub open spec fn count_candidates(
    interfaces: Seq<InterfaceView>,
    importer: int,
    name: Seq<u8>,
    upto: int,
) -> nat
    decreases upto,
{
    if upto <= 0 || upto > interfaces.len() {
        0
    } else {
        count_candidates(interfaces, importer, name, upto - 1) + if upto - 1 == importer {
            0nat
        } else {
            count_offers(
                interfaces[upto - 1].exports,
                name,
                interfaces[upto - 1].exports.len() as int,
            )
        }
    }
}

/// The first export of a component at or after `from`, the importer left
/// out, that bears the name: the component and the position of the export
/// in its list.
pub open spec fn first_candidate(
    interfaces: Seq<InterfaceView>,
    importer: int,
    name: Seq<u8>,
    from: int,
) -> Option<(int, int)>
    decreases interfaces.len() - from,
{
    if from < 0 || from >= interfaces.len() {
        None
    } else if from != importer && first_offer(interfaces[from].exports, name, 0) is Some {
        Some((from, first_offer(interfaces[from].exports, name, 0)->0))
    } else {
        first_candidate(interfaces, importer, name, from + 1)
    }
}

/// The import `import` of the component `importer` has more than one
/// candidate under the automatic strategy.
pub open spec fn is_ambiguous(interfaces: Seq<InterfaceView>, importer: int, import: int) -> bool {
    let entry = interfaces[importer].imports[import];
    count_candidates(interfaces, importer, entry.name, interfaces.len() as int) > 1
}

/// The binding of an import under the automatic strategy: the one candidate
/// if exactly one export of another component bears its field name.
pub open spec fn auto_binding(interfaces: Seq<InterfaceView>, importer: int, import: int)
    -> Binding {
    let entry = interfaces[importer].imports[import];
    if count_candidates(interfaces, importer, entry.name, interfaces.len() as int) == 1 {
        match first_candidate(interfaces, importer, entry.name, 0) {
            Some((component, export)) => Binding::Internal {
                component: component as usize,
                export: export as usize,
            },
            None => Binding::External,
        }
    } else {
        Binding::External
    }
}

/// The names of the ambiguous imports among the first `upto` imports of a
/// component, in their order.
pub open spec fn ambiguous_in(interfaces: Seq<InterfaceView>, importer: int, upto: int) -> Seq<
    Seq<u8>,
>
    decreases upto,
{
    if upto <= 0 || upto > interfaces[importer].imports.len() {
        Seq::empty()
    } else if is_ambiguous(interfaces, importer, upto - 1) {
        ambiguous_in(interfaces, importer, upto - 1).push(
            interfaces[importer].imports[upto - 1].name,
        )
    } else {
        ambiguous_in(interfaces, importer, upto - 1)
    }
}

/// The names of the ambiguous imports of the first `upto` components, in
/// the order of the components and of their imports.
pub open spec fn ambiguous_names(interfaces: Seq<InterfaceView>, upto: int) -> Seq<Seq<u8>>
    decreases upto,
{
    if upto <= 0 || upto > interfaces.len() {
        Seq::empty()
    } else {
        ambiguous_names(interfaces, upto - 1) + ambiguous_in(
            interfaces,
            upto - 1,
            interfaces[upto - 1].imports.len() as int,
        )
    }
}

/// The bindings of every import of every component under the automatic
/// strategy.
pub open spec fn auto_bindings(interfaces: Seq<InterfaceView>) -> Seq<Seq<Binding>> {
    Seq::new(
        interfaces.len(),
        |k: int|
            Seq::new(interfaces[k].imports.len(), |j: int| auto_binding(interfaces, k, j)),
    )
}

/// What the automatic strategy decides: the names of all ambiguous imports
/// if there are any, otherwise a binding for every import.
pub open spec fn resolve_auto_spec(interfaces: Seq<InterfaceView>) -> Result<
    Seq<Seq<Binding>>,
    Seq<Seq<u8>>,
> {
    let names = ambiguous_names(interfaces, interfaces.len() as int);
    if names.len() > 0 {
        Err(names)
    } else {
        Ok(auto_bindings(interfaces))
    }
}

/// What a search for a name found: nothing, one place, or more than one.
#[derive(Clone, Copy, Debug, PartialEq, Eq, Structural)]
pub enum Found {
    Nothing,
    One(usize),
    Several,
}

/// Searches the exports for a name.
pub fn find_offers(exports: &Vec<ExportEntry>, name: &[u8]) -> (r: Found)
    ensures
        match r {
            Found::Nothing => count_offers(views(exports@), name@, exports@.len() as int) == 0
                && first_offer(views(exports@), name@, 0) is None,
            Found::One(i) => count_offers(views(exports@), name@, exports@.len() as int) == 1
                && first_offer(views(exports@), name@, 0) == Some(i as int) && i < exports@.len()
                && offers(exports@[i as int]@, name@),
            Found::Several => count_offers(views(exports@), name@, exports@.len() as int) > 1
                && first_offer(views(exports@), name@, 0) is Some,
        },
{
    let ghost all = views(exports@);
    let mut found = Found::Nothing;
    let mut i: usize = 0;
    while i < exports.len()
        invariant
            i <= exports@.len(),
            all == views(exports@),
            match found {
                Found::Nothing => count_offers(all, name@, i as int) == 0 && first_offer(
                    all,
                    name@,
                    0,
                ) == first_offer(all, name@, i as int),
                Found::One(at) => count_offers(all, name@, i as int) == 1 && first_offer(
                    all,
                    name@,
                    0,
                ) == Some(at as int) && at < i && offers(all[at as int], name@),
                Found::Several => count_offers(all, name@, i as int) > 1 && first_offer(
                    all,
                    name@,
                    0,
                ) is Some,
            },
        decreases exports@.len() - i,
    {
        let entry = &exports[i];
        proof {
            assert(all[i as int] == entry@);
        }
        let hit = same_bytes(entry.name.as_slice(), name);
        if hit {
            found = match found {
                Found::Nothing => Found::One(i),
                _ => Found::Several,
            };
        }
        i += 1;
    }
    found
}

/// Searches the imports for a field name.
pub fn find_asks(imports: &Vec<ImportEntry>, name: &[u8]) -> (r: Found)
    ensures
        match r {
            Found::Nothing => count_asks(views(imports@), name@, imports@.len() as int) == 0,
            Found::One(i) => count_asks(views(imports@), name@, imports@.len() as int) == 1
                && first_ask(views(imports@), name@, 0) == Some(i as int) && i < imports@.len()
                && asks(imports@[i as int]@, name@),
            Found::Several => count_asks(views(imports@), name@, imports@.len() as int) > 1,
        },
{
    let ghost all = views(imports@);
    let mut found = Found::Nothing;
    let mut i: usize = 0;
    while i < imports.len()
        invariant
            i <= imports@.len(),
            all == views(imports@),
            match found {
                Found::Nothing => count_asks(all, name@, i as int) == 0 && first_ask(all, name@, 0)
                    == first_ask(all, name@, i as int),
                Found::One(at) => count_asks(all, name@, i as int) == 1 && first_ask(all, name@, 0)
                    == Some(at as int) && at < i && asks(all[at as int], name@),
                Found::Several => count_asks(all, name@, i as int) > 1,
            },
        decreases imports@.len() - i,
    {
        let entry = &imports[i];
        proof {
            assert(all[i as int] == entry@);
        }
        let hit = same_bytes(entry.name.as_slice(), name);
        if hit {
            found = match found {
                Found::Nothing => Found::One(i),
                _ => Found::Several,
            };
        }
        i += 1;
    }
    found
}

/// What a search over all components found: nothing, one export, or more
/// than one.
#[derive(Clone, Copy, Debug, PartialEq, Eq, Structural)]
pub enum Candidates {
    Nothing,
    One { component: usize, export: usize },
    Several,
}

/// Searches the exports of all components but the importer for a name.
pub fn find_candidates(interfaces: &Vec<Interface>, importer: usize, name: &[u8]) -> (r:
    Candidates)
    ensures
        match r {
            Candidates::Nothing => count_candidates(
                views(interfaces@),
                importer as int,
                name@,
                interfaces@.len() as int,
            ) == 0 && first_candidate(views(interfaces@), importer as int, name@, 0) is None,
            Candidates::One { component, export } => count_candidates(
                views(interfaces@),
                importer as int,
                name@,
                interfaces@.len() as int,
            ) == 1 && first_candidate(views(interfaces@), importer as int, name@, 0) == Some(
                (component as int, export as int),
            ) && component < interfaces@.len() && component != importer && export
                < interfaces@[component as int].exports@.len() && offers(
                interfaces@[component as int].exports@[export as int]@,
                name@,
            ),
            Candidates::Several => count_candidates(
                views(interfaces@),
                importer as int,
                name@,
                interfaces@.len() as int,
            ) > 1,
        },
{
    let ghost all = views(interfaces@);
    let mut found = Candidates::Nothing;
    let mut m: usize = 0;
    while m < interfaces.len()
        invariant
            m <= interfaces@.len(),
            all == views(interfaces@),
            match found {
                Candidates::Nothing => count_candidates(all, importer as int, name@, m as int) == 0
                    && first_candidate(all, importer as int, name@, 0) == first_candidate(
                    all,
                    importer as int,
                    name@,
                    m as int,
                ),
                Candidates::One { component, export } => count_candidates(
                    all,
                    importer as int,
                    name@,
                    m as int,
                ) == 1 && first_candidate(all, importer as int, name@, 0) == Some(
                    (component as int, export as int),
                ) && component < m && component != importer && export
                    < interfaces@[component as int].exports@.len() && offers(
                    interfaces@[component as int].exports@[export as int]@,
                    name@,
                ),
                Candidates::Several => count_candidates(all, importer as int, name@, m as int) > 1,
            },
        decreases interfaces@.len() - m,
    {
        proof {
            assert(all[m as int] == interfaces@[m as int]@);
        }
        if m != importer {
            let here = find_offers(&interfaces[m].exports, name);
            found = match (found, here) {
                (f, Found::Nothing) => f,
                (Candidates::Nothing, Found::One(e)) => Candidates::One { component: m, export: e },
                (_, _) => Candidates::Several,
            };
        }
        m += 1;
    }
    found
}

/// Binds the imports of one component under the automatic strategy and
/// appends the names of its ambiguous imports to `names`.
fn bind_imports(interfaces: &Vec<Interface>, importer: usize, names: &mut Vec<Vec<u8>>) -> (r: Vec<
    Binding,
>)
    requires
        importer < interfaces@.len(),
    ensures
        r@ == auto_bindings(views(interfaces@))[importer as int],
        r@.len() == interfaces@[importer as int].imports@.len(),
        forall|j: int| 0 <= j < r@.len() ==> binding_in_range(#[trigger] r@[j], views(interfaces@)),
        views(final(names)@) == views(old(names)@) + ambiguous_in(
            views(interfaces@),
            importer as int,
            interfaces@[importer as int].imports@.len() as int,
        ),
{
    let ghost all = views(interfaces@);
    let imports = &interfaces[importer].imports;
    let mut bindings: Vec<Binding> = Vec::new();
    let mut j: usize = 0;
    proof {
        assert(all[importer as int] == interfaces@[importer as int]@);
        assert(views(names@) + ambiguous_in(all, importer as int, 0) =~= views(names@));
    }
    while j < imports.len()
        invariant
            j <= imports@.len(),
            importer < interfaces@.len(),
            all == views(interfaces@),
            imports == &interfaces@[importer as int].imports,
            all[importer as int].imports == views(imports@),
            bindings@.len() == j,
            forall|i: int| 0 <= i < j ==> bindings@[i] == auto_binding(all, importer as int, i),
            forall|i: int| 0 <= i < j ==> binding_in_range(#[trigger] bindings@[i], all),
            views(names@) == views(old(names)@) + ambiguous_in(all, importer as int, j as int),
        decreases imports@.len() - j,
    {
        let entry = &imports[j];
        let ghost before = views(names@);
        proof {
            assert(all[importer as int].imports[j as int] == entry@);
        }
        let binding = match find_candidates(interfaces, importer, entry.name.as_slice()) {
            Candidates::Nothing => Binding::External,
            Candidates::One { component, export } => {
                proof {
                    assert(all[component as int] == interfaces@[component as int]@);
                }
                Binding::Internal { component, export }
            },
            Candidates::Several => {
                names.push(crate::module::copy_bytes(&entry.name));
                proof {
                    assert(views(names@) =~= before.push(entry.name@));
                }
                Binding::External
            },
        };
        bindings.push(binding);
        proof {
            assert(views(names@) =~= views(old(names)@) + ambiguous_in(
                all,
                importer as int,
                j + 1,
            ));
        }
        j += 1;
    }
    proof {
        assert(bindings@ =~= auto_bindings(all)[importer as int]);
    }
    bindings
}

/// Resolves every import under the automatic strategy.
///
/// An import is bound when exactly one export of another component bears its
/// field name; the module name of the import is not consulted. An import
/// whose name no export bears stays external. When any import has more than
/// one candidate, the names of all such imports come back as the error.
pub fn resolve_auto(interfaces: &Vec<Interface>) -> (r: Result<Vec<Vec<Binding>>, Vec<Vec<u8>>>)
    ensures
        match r {
            Ok(bindings) => resolve_auto_spec(views(interfaces@)) == Ok::<
                Seq<Seq<Binding>>,
                Seq<Seq<u8>>,
            >(views(bindings@)) && bindings_wf(views(bindings@), views(interfaces@)),
            Err(names) => resolve_auto_spec(views(interfaces@)) == Err::<
                Seq<Seq<Binding>>,
                Seq<Seq<u8>>,
            >(views(names@)),
        },
{
    let ghost all = views(interfaces@);
    let mut names: Vec<Vec<u8>> = Vec::new();
    let mut bindings: Vec<Vec<Binding>> = Vec::new();
    let mut k: usize = 0;
    proof {
        assert(views(names@) =~= ambiguous_names(all, 0));
    }
    while k < interfaces.len()
        invariant
            k <= interfaces@.len(),
            all == views(interfaces@),
            bindings@.len() == k,
            forall|i: int| 0 <= i < k ==> (#[trigger] bindings@[i])@ == auto_bindings(all)[i],
            forall|i: int|
                0 <= i < k ==> (#[trigger] bindings@[i])@.len() == all[i].imports.len(),
            forall|i: int, j: int|
                0 <= i < k && 0 <= j < bindings@[i]@.len() ==> binding_in_range(
                    #[trigger] bindings@[i]@[j],
                    all,
                ),
            views(names@) == ambiguous_names(all, k as int),
        decreases interfaces@.len() - k,
    {
        proof {
            assert(all[k as int] == interfaces@[k as int]@);
        }
        let bound = bind_imports(interfaces, k, &mut names);
        bindings.push(bound);
        k += 1;
    }
    if names.len() > 0 {
        Err(names)
    } else {
        proof {
            assert(views(bindings@) =~= auto_bindings(all));
        }
        Ok(bindings)
    }
}

/// An import with two candidates makes the automatic strategy fail, and its
/// name is among the names that the failure reports.
pub proof fn lemma_ambiguity_is_reported(interfaces: Seq<InterfaceView>, importer: int, import: int)
    requires
        0 <= importer < interfaces.len(),
        0 <= import < interfaces[importer].imports.len(),
        is_ambiguous(interfaces, importer, import),
    ensures
        resolve_auto_spec(interfaces) matches Err(names) && names.contains(
            interfaces[importer].imports[import].name,
        ),
{
    let name = interfaces[importer].imports[import].name;
    lemma_ambiguous_in_contains(
        interfaces,
        importer,
        import,
        interfaces[importer].imports.len() as int,
    );
    lemma_ambiguous_names_contains(interfaces, importer, name, interfaces.len() as int);
}

proof fn lemma_ambiguous_in_contains(
    interfaces: Seq<InterfaceView>,
    importer: int,
    import: int,
    upto: int,
)
    requires
        0 <= import < upto <= interfaces[importer].imports.len(),
        is_ambiguous(interfaces, importer, import),
    ensures
        ambiguous_in(interfaces, importer, upto).contains(
            interfaces[importer].imports[import].name,
        ),
    decreases upto,
{
    let name = interfaces[importer].imports[import].name;
    let here = ambiguous_in(interfaces, importer, upto);
    if import == upto - 1 {
        assert(here[here.len() - 1] == name);
    } else {
        lemma_ambiguous_in_contains(interfaces, importer, import, upto - 1);
        let before = ambiguous_in(interfaces, importer, upto - 1);
        let at = choose|i: int| 0 <= i < before.len() && before[i] == name;
        assert(here[at] == name);
    }
}

proof fn lemma_ambiguous_names_contains(
    interfaces: Seq<InterfaceView>,
    importer: int,
    name: Seq<u8>,
    upto: int,
)
    requires
        0 <= importer < upto <= interfaces.len(),
        ambiguous_in(interfaces, importer, interfaces[importer].imports.len() as int).contains(
            name,
        ),
    ensures
        ambiguous_names(interfaces, upto).contains(name),
        ambiguous_names(interfaces, upto).len() > 0,
    decreases upto,
{
    let here = ambiguous_names(interfaces, upto);
    let before = ambiguous_names(interfaces, upto - 1);
    let last = ambiguous_in(interfaces, upto - 1, interfaces[upto - 1].imports.len() as int);
    if importer == upto - 1 {
        let at = choose|i: int| 0 <= i < last.len() && last[i] == name;
        assert(here[before.len() + at] == name);
    } else {
        lemma_ambiguous_names_contains(interfaces, importer, name, upto - 1);
        let at = choose|i: int| 0 <= i < before.len() && before[i] == name;
        assert(here[at] == name);
    }
}

/// The position of the first component at or after `from` that bears the
/// name, among the first `count` components of the configuration.
pub open spec fn component_named(
    components: Seq<ComponentConfigView>,
    count: int,
    name: Seq<char>,
    from: int,
) -> Option<int>
    decreases components.len() - from,
{
    if from < 0 || from >= components.len() || from >= count {
        None
    } else if components[from].name == name {
        Some(from)
    } else {
        component_named(components, count, name, from + 1)
    }
}

/// The two ends of a connection.
pub struct Endpoints {
    pub from: int,
    pub export: int,
    pub to: int,
    pub import: int,
}

/// What is wrong with the source of a connection: the name of the component
/// `from` if no component bears it, otherwise the name of the export if not
/// exactly one export of that component bears it.
pub open spec fn missing_source(
    interfaces: Seq<InterfaceView>,
    components: Seq<ComponentConfigView>,
    connection: ConnectionView,
) -> Option<Seq<char>> {
    match component_named(components, interfaces.len() as int, connection.from, 0) {
        None => Some(connection.from),
        Some(from) => {
            let exports = interfaces[from].exports;
            if count_offers(exports, encode_utf8(connection.export), exports.len() as int) != 1 {
                Some(connection.export)
            } else {
                None
            }
        },
    }
}

/// What is wrong with the target of a connection: the name of the component
/// `to` if no component bears it, otherwise the name of the import if not
/// exactly one import of that component bears it.
pub open spec fn missing_target(
    interfaces: Seq<InterfaceView>,
    components: Seq<ComponentConfigView>,
    connection: ConnectionView,
) -> Option<Seq<char>> {
    match component_named(components, interfaces.len() as int, connection.to, 0) {
        None => Some(connection.to),
        Some(to) => {
            let imports = interfaces[to].imports;
            if count_asks(imports, encode_utf8(connection.import), imports.len() as int) != 1 {
                Some(connection.import)
            } else {
                None
            }
        },
    }
}

/// A name, if there is one, as a sequence of names.
pub open spec fn listed(name: Option<Seq<char>>) -> Seq<Seq<char>> {
    match name {
        Some(n) => seq![n],
        None => Seq::empty(),
    }
}

/// Every name of a connection that names nothing: what is wrong with its
/// source, then what is wrong with its target.
pub open spec fn missing(
    interfaces: Seq<InterfaceView>,
    components: Seq<ComponentConfigView>,
    connection: ConnectionView,
) -> Seq<Seq<char>> {
    listed(missing_source(interfaces, components, connection)) + listed(
        missing_target(interfaces, components, connection),
    )
}

/// The ends of a connection, or every name that it gives and that names
/// nothing. The export is looked for whenever the component `from` exists,
/// the import whenever the component `to` exists.
pub open spec fn endpoints(
    interfaces: Seq<InterfaceView>,
    components: Seq<ComponentConfigView>,
    connection: ConnectionView,
) -> Result<Endpoints, Seq<Seq<char>>> {
    if missing(interfaces, components, connection).len() > 0 {
        Err(missing(interfaces, components, connection))
    } else {
        let from = component_named(components, interfaces.len() as int, connection.from, 0)->0;
        let to = component_named(components, interfaces.len() as int, connection.to, 0)->0;
        Ok(
            Endpoints {
                from,
                export: first_offer(interfaces[from].exports, encode_utf8(connection.export), 0)->0,
                to,
                import: first_ask(interfaces[to].imports, encode_utf8(connection.import), 0)->0,
            },
        )
    }
}

/// The bindings made so far and the names that named nothing.
pub struct ManualState {
    pub bindings: Seq<Seq<Binding>>,
    pub problems: Seq<Seq<char>>,
}

/// Every import external.
pub open spec fn unbound(interfaces: Seq<InterfaceView>) -> Seq<Seq<Binding>> {
    Seq::new(
        interfaces.len(),
        |k: int| Seq::new(interfaces[k].imports.len(), |j: int| Binding::External),
    )
}

/// The state after one more connection. Every name of the connection that
/// names nothing is a problem. A connection whose ends exist binds the
/// import, unless an earlier connection bound it already: then the name of
/// the import is a problem.
pub open spec fn connect(
    state: ManualState,
    interfaces: Seq<InterfaceView>,
    components: Seq<ComponentConfigView>,
    connection: ConnectionView,
) -> ManualState {
    match endpoints(interfaces, components, connection) {
        Err(names) => ManualState { problems: state.problems + names, ..state },
        Ok(ends) => if state.bindings[ends.to][ends.import] is Internal {
            ManualState { problems: state.problems.push(connection.import), ..state }
        } else {
            ManualState {
                bindings: state.bindings.update(
                    ends.to,
                    state.bindings[ends.to].update(
                        ends.import,
                        Binding::Internal {
                            component: ends.from as usize,
                            export: ends.export as usize,
                        },
                    ),
                ),
                ..state
            }
        },
    }
}

/// The state after the first `upto` connections.
pub open spec fn connect_all(
    interfaces: Seq<InterfaceView>,
    components: Seq<ComponentConfigView>,
    connections: Seq<ConnectionView>,
    upto: int,
) -> ManualState
    decreases upto,
{
    if upto <= 0 || upto > connections.len() {
        ManualState { bindings: unbound(interfaces), problems: Seq::empty() }
    } else {
        connect(
            connect_all(interfaces, components, connections, upto - 1),
            interfaces,
            components,
            connections[upto - 1],
        )
    }
}

/// What the manual strategy decides: the names that named nothing if there
/// are any, otherwise the bindings that the connections make.
pub open spec fn resolve_manual_spec(
    interfaces: Seq<InterfaceView>,
    components: Seq<ComponentConfigView>,
    connections: Seq<ConnectionView>,
) -> Result<Seq<Seq<Binding>>, Seq<Seq<char>>> {
    let state = connect_all(interfaces, components, connections, connections.len() as int);
    if state.problems.len() > 0 {
        Err(state.problems)
    } else {
        Ok(state.bindings)
    }
}

/// The bindings have one row for each component and one entry for each of
/// its imports.
pub open spec fn fits(bindings: Seq<Seq<Binding>>, interfaces: Seq<InterfaceView>) -> bool {
    &&& bindings.len() == interfaces.len()
    &&& forall|k: int|
        0 <= k < bindings.len() ==> (#[trigger] bindings[k]).len() == interfaces[k].imports.len()
}

/// An internal binding points at an export of a component.
pub open spec fn binding_in_range(binding: Binding, interfaces: Seq<InterfaceView>) -> bool {
    binding matches Binding::Internal { component, export } ==> component < interfaces.len()
        && export < interfaces[component as int].exports.len()
}

/// The bindings fit the interfaces and every internal binding points at an
/// export.
pub open spec fn bindings_wf(bindings: Seq<Seq<Binding>>, interfaces: Seq<InterfaceView>) -> bool {
    &&& fits(bindings, interfaces)
    &&& forall|k: int, j: int|
        0 <= k < bindings.len() && 0 <= j < bindings[k].len() ==> binding_in_range(
            #[trigger] bindings[k][j],
            interfaces,
        )
}

fn find_component(components: &Vec<ComponentConfig>, count: usize, name: &String) -> (r: Option<
    usize,
>)
    ensures
        match r {
            Some(i) => component_named(views(components@), count as int, name@, 0) == Some(
                i as int,
            ) && i < count && i < components@.len(),
            None => component_named(views(components@), count as int, name@, 0) is None,
        },
{
    let ghost all = views(components@);
    let mut i: usize = 0;
    while i < components.len() && i < count
        invariant
            i <= components@.len(),
            all == views(components@),
            component_named(all, count as int, name@, 0) == component_named(
                all,
                count as int,
                name@,
                i as int,
            ),
        decreases components@.len() - i,
    {
        proof {
            assert(all[i as int] == components@[i as int]@);
        }
        if components[i].name == *name {
            return Some(i);
        }
        i += 1;
    }
    None
}

/// A row of bindings with one entry replaced.
fn with_binding(row: &Vec<Binding>, at: usize, binding: Binding) -> (r: Vec<Binding>)
    requires
        at < row@.len(),
    ensures
        r@ == row@.update(at as int, binding),
{
    let mut out: Vec<Binding> = Vec::new();
    let mut i: usize = 0;
    while i < row.len()
        invariant
            i <= row@.len(),
            at < row@.len(),
            out@.len() == i,
            forall|j: int| 0 <= j < i ==> out@[j] == row@.update(at as int, binding)[j],
        decreases row@.len() - i,
    {
        if i == at {
            out.push(binding);
        } else {
            out.push(row[i]);
        }
        i += 1;
    }
    proof {
        assert(out@ =~= row@.update(at as int, binding));
    }
    out
}

/// A row of external bindings.
fn external_row(len: usize) -> (r: Vec<Binding>)
    ensures
        r@ == Seq::new(len as nat, |j: int| Binding::External),
{
    let mut out: Vec<Binding> = Vec::new();
    let mut i: usize = 0;
    while i < len
        invariant
            i <= len,
            out@.len() == i,
            forall|j: int| 0 <= j < i ==> out@[j] == Binding::External,
        decreases len - i,
    {
        out.push(Binding::External);
        i += 1;
    }
    proof {
        assert(out@ =~= Seq::new(len as nat, |j: int| Binding::External));
    }
    out
}

/// Finds the source of a connection: the component and its export.
fn find_source(
    interfaces: &Vec<Interface>,
    components: &Vec<ComponentConfig>,
    connection: &Connection,
) -> (r: Result<(usize, usize), String>)
    ensures
        match r {
            Ok((from, export)) => missing_source(
                views(interfaces@),
                views(components@),
                connection@,
            ) is None && component_named(
                views(components@),
                interfaces@.len() as int,
                connection@.from,
                0,
            ) == Some(from as int) && first_offer(
                views(interfaces@)[from as int].exports,
                encode_utf8(connection@.export),
                0,
            ) == Some(export as int) && from < interfaces@.len() && export
                < interfaces@[from as int].exports@.len(),
            Err(name) => missing_source(views(interfaces@), views(components@), connection@)
                == Some(name@),
        },
{
    let ghost all = views(interfaces@);
    match find_component(components, interfaces.len(), &connection.from) {
        None => Err(connection.from.clone()),
        Some(from) => {
            proof {
                assert(all[from as int] == interfaces@[from as int]@);
            }
            match find_offers(&interfaces[from].exports, connection.export.as_str().as_bytes()) {
                Found::One(export) => Ok((from, export)),
                _ => Err(connection.export.clone()),
            }
        },
    }
}

/// Finds the target of a connection: the component and its import.
fn find_target(
    interfaces: &Vec<Interface>,
    components: &Vec<ComponentConfig>,
    connection: &Connection,
) -> (r: Result<(usize, usize), String>)
    ensures
        match r {
            Ok((to, import)) => missing_target(
                views(interfaces@),
                views(components@),
                connection@,
            ) is None && component_named(
                views(components@),
                interfaces@.len() as int,
                connection@.to,
                0,
            ) == Some(to as int) && first_ask(
                views(interfaces@)[to as int].imports,
                encode_utf8(connection@.import),
                0,
            ) == Some(import as int) && to < interfaces@.len() && import
                < interfaces@[to as int].imports@.len(),
            Err(name) => missing_target(views(interfaces@), views(components@), connection@)
                == Some(name@),
        },
{
    let ghost all = views(interfaces@);
    match find_component(components, interfaces.len(), &connection.to) {
        None => Err(connection.to.clone()),
        Some(to) => {
            proof {
                assert(all[to as int] == interfaces@[to as int]@);
            }
            match find_asks(&interfaces[to].imports, connection.import.as_str().as_bytes()) {
                Found::One(import) => Ok((to, import)),
                _ => Err(connection.import.clone()),
            }
        },
    }
}

/// Finds the two ends of a connection, or every name that names nothing.
fn find_endpoints(
    interfaces: &Vec<Interface>,
    components: &Vec<ComponentConfig>,
    connection: &Connection,
) -> (r: Result<(usize, usize, usize, usize), Vec<String>>)
    ensures
        match r {
            Ok((from, export, to, import)) => endpoints(
                views(interfaces@),
                views(components@),
                connection@,
            ) == Ok::<Endpoints, Seq<Seq<char>>>(
                Endpoints {
                    from: from as int,
                    export: export as int,
                    to: to as int,
                    import: import as int,
                },
            ) && from < interfaces@.len() && to < interfaces@.len() && export
                < interfaces@[from as int].exports@.len() && import
                < interfaces@[to as int].imports@.len(),
            Err(names) => endpoints(views(interfaces@), views(components@), connection@) == Err::<
                Endpoints,
                Seq<Seq<char>>,
            >(views(names@)),
        },
{
    let source = find_source(interfaces, components, connection);
    let target = find_target(interfaces, components, connection);
    let mut names: Vec<String> = Vec::new();
    let ghost all = views(interfaces@);
    let ghost parts = views(components@);
    proof {
        assert(views(names@) =~= Seq::<Seq<char>>::empty());
    }
    match (source, target) {
        (Ok((from, export)), Ok((to, import))) => {
            proof {
                assert(missing(all, parts, connection@) =~= Seq::<Seq<char>>::empty());
            }
            return Ok((from, export, to, import));
        },
        (Err(first), Ok(_)) => {
            names.push(first);
            proof {
                assert(views(names@) =~= missing(all, parts, connection@));
            }
        },
        (Ok(_), Err(second)) => {
            names.push(second);
            proof {
                assert(views(names@) =~= missing(all, parts, connection@));
            }
        },
        (Err(first), Err(second)) => {
            names.push(first);
            names.push(second);
            proof {
                assert(views(names@) =~= missing(all, parts, connection@));
            }
        },
    }
    Err(names)
}

/// Resolves imports under the manual strategy.
///
/// Each connection names two components, an export of the first and an
/// import of the second. The names of the components are those
/// of the configuration, the i-th of them standing for the i-th interface.
/// When a connection names something that does not exist, or that exists
/// more than once, or an import that an earlier connection has bound, the
/// offending names of all such connections come back as the error.
pub fn resolve_manual(
    interfaces: &Vec<Interface>,
    components: &Vec<ComponentConfig>,
    connections: &Vec<Connection>,
) -> (r: Result<Vec<Vec<Binding>>, Vec<String>>)
    ensures
        match r {
            Ok(bindings) => resolve_manual_spec(
                views(interfaces@),
                views(components@),
                views(connections@),
            ) == Ok::<Seq<Seq<Binding>>, Seq<Seq<char>>>(views(bindings@)) && bindings_wf(
                views(bindings@),
                views(interfaces@),
            ),
            Err(names) => resolve_manual_spec(
                views(interfaces@),
                views(components@),
                views(connections@),
            ) == Err::<Seq<Seq<Binding>>, Seq<Seq<char>>>(views(names@)),
        },
{
    let ghost all = views(interfaces@);
    let ghost parts = views(components@);
    let ghost edges = views(connections@);
    let mut bindings: Vec<Vec<Binding>> = Vec::new();
    let mut k: usize = 0;
    while k < interfaces.len()
        invariant
            k <= interfaces@.len(),
            all == views(interfaces@),
            bindings@.len() == k,
            forall|i: int| 0 <= i < k ==> (#[trigger] bindings@[i])@ == unbound(all)[i],
        decreases interfaces@.len() - k,
    {
        proof {
            assert(all[k as int] == interfaces@[k as int]@);
        }
        bindings.push(external_row(interfaces[k].imports.len()));
        k += 1;
    }
    let mut problems: Vec<String> = Vec::new();
    let mut c: usize = 0;
    proof {
        assert(views(bindings@) =~= unbound(all));
        assert(views(problems@) =~= Seq::<Seq<char>>::empty());
    }
    while c < connections.len()
        invariant
            c <= connections@.len(),
            all == views(interfaces@),
            parts == views(components@),
            edges == views(connections@),
            bindings_wf(views(bindings@), all),
            connect_all(all, parts, edges, c as int) == (ManualState {
                bindings: views(bindings@),
                problems: views(problems@),
            }),
        decreases connections@.len() - c,
    {
        let connection = &connections[c];
        let ghost before = views(bindings@);
        let ghost noted = views(problems@);
        proof {
            assert(edges[c as int] == connection@);
        }
        match find_endpoints(interfaces, components, connection) {
            Err(names) => {
                let mut names = names;
                let ghost added = views(names@);
                problems.append(&mut names);
                proof {
                    assert(views(problems@) =~= noted + added);
                }
            },
            Ok((from, export, to, import)) => {
                proof {
                    assert(before[to as int] == bindings@[to as int]@);
                    assert(all[to as int] == interfaces@[to as int]@);
                    assert(all[from as int] == interfaces@[from as int]@);
                    assert(all[from as int].exports[export as int]
                        == interfaces@[from as int].exports@[export as int]@);
                    assert(all[to as int].imports[import as int]
                        == interfaces@[to as int].imports@[import as int]@);
                }
                let bound = match bindings[to][import] {
                    Binding::Internal { .. } => true,
                    Binding::External => false,
                };
                if bound {
                    problems.push(connection.import.clone());
                    proof {
                        assert(views(problems@) =~= noted.push(connection@.import));
                    }
                } else {
                    let binding = Binding::Internal { component: from, export };
                    let row = with_binding(&bindings[to], import, binding);
                    bindings.set(to, row);
                    proof {
                        let after = views(bindings@);
                        assert(after =~= before.update(
                            to as int,
                            before[to as int].update(import as int, binding),
                        ));
                        assert forall|k: int, j: int|
                            0 <= k < after.len() && 0 <= j < after[k].len() implies binding_in_range(
                            #[trigger] after[k][j],
                            all,
                        ) by {
                            if k == to && j == import {
                            } else {
                                assert(after[k][j] == before[k][j]);
                            }
                        }
                    }
                }
            },
        }
        c += 1;
    }
    if problems.len() > 0 {
        Err(problems)
    } else {
        Ok(bindings)
    }
}

/// A connection that names an export which its component does not have makes
/// the manual strategy fail, and the name of the export is among the names
/// that the failure reports, whatever else the connection names.
pub proof fn lemma_missing_export_is_reported(
    interfaces: Seq<InterfaceView>,
    components: Seq<ComponentConfigView>,
    connections: Seq<ConnectionView>,
    at: int,
)
    requires
        0 <= at < connections.len(),
        component_named(components, interfaces.len() as int, connections[at].from, 0) matches Some(
            from,
        ) && count_offers(
            interfaces[from].exports,
            encode_utf8(connections[at].export),
            interfaces[from].exports.len() as int,
        ) == 0,
    ensures
        resolve_manual_spec(interfaces, components, connections) matches Err(names)
            && names.contains(connections[at].export),
{
    let names = missing(interfaces, components, connections[at]);
    assert(names[0] == connections[at].export);
    lemma_problem_is_kept(
        interfaces,
        components,
        connections,
        at,
        connections.len() as int,
        connections[at].export,
    );
}

/// Every name of a connection that names nothing is among the names that the
/// failure of the manual strategy reports.
pub proof fn lemma_every_missing_name_is_reported(
    interfaces: Seq<InterfaceView>,
    components: Seq<ComponentConfigView>,
    connections: Seq<ConnectionView>,
    at: int,
    name: Seq<char>,
)
    requires
        0 <= at < connections.len(),
        missing(interfaces, components, connections[at]).contains(name),
    ensures
        resolve_manual_spec(interfaces, components, connections) matches Err(names)
            && names.contains(name),
{
    lemma_problem_is_kept(interfaces, components, connections, at, connections.len() as int, name);
}

/// A name that a connection adds to the problems stays among them.
proof fn lemma_problem_is_kept(
    interfaces: Seq<InterfaceView>,
    components: Seq<ComponentConfigView>,
    connections: Seq<ConnectionView>,
    at: int,
    upto: int,
    name: Seq<char>,
)
    requires
        0 <= at < upto <= connections.len(),
        missing(interfaces, components, connections[at]).contains(name),
    ensures
        connect_all(interfaces, components, connections, upto).problems.contains(name),
    decreases upto,
{
    let before = connect_all(interfaces, components, connections, upto - 1);
    let here = connect_all(interfaces, components, connections, upto);
    if at == upto - 1 {
        let names = missing(interfaces, components, connections[at]);
        let i = choose|i: int| 0 <= i < names.len() && names[i] == name;
        assert(here.problems == before.problems + names);
        assert(here.problems[before.problems.len() + i] == name);
    } else {
        lemma_problem_is_kept(interfaces, components, connections, at, upto - 1, name);
        let i = choose|i: int| 0 <= i < before.problems.len() && before.problems[i] == name;
        assert(here.problems[i] == name);
    }
}

} // verus!
