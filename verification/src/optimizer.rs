//! The optimization pipeline: leveled passes that remove custom sections.
//!
//! Every pass is a filter over the sections of a module. Structural sections
//! and sections of unknown kind are never touched, and the order of what
//! stays is the order in which it was found.

use crate::codec::{decode, decode_spec, encode, encode_spec};
use crate::leb128::{leb_encode, write_uleb128};
use crate::module::{views, Module, ParseError, Section, SectionView};
use crate::text::{decimal, push_decimal};
use vstd::prelude::*;
use vstd::slice::slice_to_vec;
use vstd::string::StringExecFns;

verus! {

/// The bytes of `debug`.
pub open spec fn debug_marker() -> Seq<u8> {
    seq![0x64u8, 0x65u8, 0x62u8, 0x75u8, 0x67u8]
}

/// The bytes of `.debug`.
pub open spec fn dot_debug_marker() -> Seq<u8> {
    seq![0x2eu8, 0x64u8, 0x65u8, 0x62u8, 0x75u8, 0x67u8]
}

/// The bytes of `name`.
pub open spec fn name_section_name() -> Seq<u8> {
    seq![0x6eu8, 0x61u8, 0x6du8, 0x65u8]
}

/// The bytes of `component`.
pub open spec fn component_marker() -> Seq<u8> {
    seq![0x63u8, 0x6fu8, 0x6du8, 0x70u8, 0x6fu8, 0x6eu8, 0x65u8, 0x6eu8, 0x74u8]
}

/// `s` begins with `prefix`.
pub open spec fn has_prefix(s: Seq<u8>, prefix: Seq<u8>) -> bool {
    prefix.len() <= s.len() && s.subrange(0, prefix.len() as int) == prefix
}

/// The name marks debug information: it begins with `debug` or `.debug`.
pub open spec fn is_debug_name(name: Seq<u8>) -> bool {
    has_prefix(name, debug_marker()) || has_prefix(name, dot_debug_marker())
}

/// The name is one that tooling depends on: `name` itself, or anything that
/// begins with `component`.
pub open spec fn is_essential_name(name: Seq<u8>) -> bool {
    name == name_section_name() || has_prefix(name, component_marker())
}

/// A custom section that carries debug information.
pub open spec fn is_debug_section(section: SectionView) -> bool {
    section matches SectionView::Custom { name, .. } && is_debug_name(name)
}

/// A custom section whose name is on the allowlist.
pub open spec fn is_essential_section(section: SectionView) -> bool {
    section matches SectionView::Custom { name, .. } && is_essential_name(name)
}

/// Whether a section stays when debug sections are stripped
/// (`strip_debug`) and when custom sections off the allowlist are stripped
/// (`strip_custom`).
pub open spec fn passes(section: SectionView, strip_debug: bool, strip_custom: bool) -> bool {
    &&& strip_debug ==> !is_debug_section(section)
    &&& strip_custom ==> (!section.is_custom() || is_essential_section(section))
}

/// Whether a section stays at an optimization level.
pub open spec fn retained(section: SectionView, level: u8) -> bool {
    passes(section, level >= 1, level >= 2)
}

/// What is left of `sections` after the two strippers, each switched on or off.
pub open spec fn strip_spec(sections: Seq<SectionView>, strip_debug: bool, strip_custom: bool)
    -> Seq<SectionView> {
    sections.filter(|s: SectionView| passes(s, strip_debug, strip_custom))
}

/// The module that optimizing at `level` gives: the sections that are
/// retained at that level, in their order.
pub open spec fn optimize_spec(sections: Seq<SectionView>, level: u8) -> Seq<SectionView> {
    sections.filter(|s: SectionView| retained(s, level))
}

/// Filters that agree on every element of a sequence give the same result.
pub proof fn lemma_filter_agree<A>(s: Seq<A>, p: spec_fn(A) -> bool, q: spec_fn(A) -> bool)
    requires
        forall|i: int| 0 <= i < s.len() ==> p(#[trigger] s[i]) == q(s[i]),
    ensures
        s.filter(p) == s.filter(q),
    decreases s.len(),
{
    reveal(Seq::filter);
    if s.len() > 0 {
        assert forall|i: int| 0 <= i < s.drop_last().len() implies p(#[trigger] s.drop_last()[i])
            == q(s.drop_last()[i]) by {
            assert(s.drop_last()[i] == s[i]);
        }
        lemma_filter_agree(s.drop_last(), p, q);
        assert(s.last() == s[s.len() - 1]);
    }
}

/// A filter that every element passes changes nothing.
pub proof fn lemma_filter_all<A>(s: Seq<A>, p: spec_fn(A) -> bool)
    requires
        forall|i: int| 0 <= i < s.len() ==> p(#[trigger] s[i]),
    ensures
        s.filter(p) == s,
    decreases s.len(),
{
    reveal(Seq::filter);
    if s.len() > 0 {
        assert forall|i: int| 0 <= i < s.drop_last().len() implies p(#[trigger] s.drop_last()[i]) by {
            assert(s.drop_last()[i] == s[i]);
        }
        lemma_filter_all(s.drop_last(), p);
        assert(s.last() == s[s.len() - 1]);
        assert(s.drop_last().push(s.last()) =~= s);
    } else {
        assert(s.filter(p) =~= s);
    }
}

/// Filtering twice is filtering once by both predicates.
pub proof fn lemma_filter_twice<A>(s: Seq<A>, p: spec_fn(A) -> bool, q: spec_fn(A) -> bool)
    ensures
        s.filter(p).filter(q) == s.filter(|x: A| p(x) && q(x)),
    decreases s.len(),
{
    reveal(Seq::filter);
    let both = |x: A| p(x) && q(x);
    if s.len() > 0 {
        lemma_filter_twice(s.drop_last(), p, q);
        let front = s.drop_last().filter(p);
        if p(s.last()) {
            assert(s.filter(p) == front.push(s.last()));
            assert(front.push(s.last()).drop_last() =~= front);
        }
    }
}

/// What a filter lets through passes the filter, and what passes the filter
/// in the input is found in the output.
pub proof fn lemma_filter_members<A>(s: Seq<A>, p: spec_fn(A) -> bool)
    ensures
        forall|i: int| 0 <= i < s.filter(p).len() ==> p(#[trigger] s.filter(p)[i]),
        forall|i: int| 0 <= i < s.filter(p).len() ==> s.contains(#[trigger] s.filter(p)[i]),
        forall|i: int| 0 <= i < s.len() && p(s[i]) ==> s.filter(p).contains(#[trigger] s[i]),
    decreases s.len(),
{
    reveal(Seq::filter);
    if s.len() > 0 {
        let front = s.drop_last();
        lemma_filter_members(front, p);
        let out = s.filter(p);
        assert forall|i: int| 0 <= i < out.len() implies p(#[trigger] out[i]) && s.contains(
            out[i],
        ) by {
            if i < front.filter(p).len() {
                assert(out[i] == front.filter(p)[i]);
                let j = choose|j: int| 0 <= j < front.len() && front[j] == front.filter(p)[i];
                assert(s[j] == out[i]);
            } else {
                assert(out[i] == s[s.len() - 1]);
            }
        }
        assert forall|i: int| 0 <= i < s.len() && p(s[i]) implies out.contains(#[trigger] s[i]) by {
            if i < front.len() {
                assert(front[i] == s[i]);
                let j = choose|j: int| 0 <= j < front.filter(p).len() && front.filter(p)[j] == s[i];
                assert(out[j] == s[i]);
            } else {
                assert(out[out.len() - 1] == s[i]);
            }
        }
    }
}

/// A name on the allowlist never marks debug information.
pub proof fn lemma_essential_is_not_debug(name: Seq<u8>)
    requires
        is_essential_name(name),
    ensures
        !is_debug_name(name),
{
    if name == name_section_name() {
        assert(name[0] == 0x6e);
    } else {
        assert(name.subrange(0, 9)[0] == name[0]);
        assert(name[0] == 0x63);
    }
    if has_prefix(name, debug_marker()) {
        assert(name.subrange(0, 5)[0] == name[0]);
    }
    if has_prefix(name, dot_debug_marker()) {
        assert(name.subrange(0, 6)[0] == name[0]);
    }
}

/// Each level keeps no more than the level below it.
pub proof fn lemma_levels_nest(section: SectionView, lower: u8, higher: u8)
    requires
        lower <= higher,
        retained(section, higher),
    ensures
        retained(section, lower),
{
}

/// Level 0 leaves every module as it is.
pub proof fn lemma_optimize_level_zero(sections: Seq<SectionView>)
    ensures
        optimize_spec(sections, 0) == sections,
{
    lemma_filter_all(sections, |s: SectionView| retained(s, 0));
}

/// Optimizing again at the same level changes nothing.
pub proof fn lemma_optimize_idempotent(sections: Seq<SectionView>, level: u8)
    ensures
        optimize_spec(optimize_spec(sections, level), level) == optimize_spec(sections, level),
{
    let p = |s: SectionView| retained(s, level);
    lemma_filter_members(sections, p);
    lemma_filter_all(sections.filter(p), p);
}

/// Optimizing at one level and then at another is optimizing at the higher
/// of the two.
pub proof fn lemma_optimize_composes(sections: Seq<SectionView>, first: u8, second: u8)
    ensures
        optimize_spec(optimize_spec(sections, first), second) == optimize_spec(
            sections,
            if first >= second {
                first
            } else {
                second
            },
        ),
{
    let p = |s: SectionView| retained(s, first);
    let q = |s: SectionView| retained(s, second);
    let top = if first >= second {
        first
    } else {
        second
    };
    lemma_filter_twice(sections, p, q);
    lemma_filter_agree(
        sections,
        |s: SectionView| p(s) && q(s),
        |s: SectionView| retained(s, top),
    );
}

/// From level 1 on, no custom section whose name begins with a debug marker
/// is left. At level 1 itself everything else is, in its order.
pub proof fn lemma_debug_sections_stripped(sections: Seq<SectionView>, level: u8)
    requires
        level >= 1,
    ensures
        forall|i: int|
            0 <= i < optimize_spec(sections, level).len() ==> !is_debug_section(
                #[trigger] optimize_spec(sections, level)[i],
            ),
        level == 1 ==> optimize_spec(sections, level) == sections.filter(
            |s: SectionView| !is_debug_section(s),
        ),
{
    let p = |s: SectionView| retained(s, level);
    lemma_filter_members(sections, p);
    if level == 1 {
        lemma_filter_agree(sections, p, |s: SectionView| !is_debug_section(s));
    }
}

/// From level 2 on, the custom sections that are left are exactly those named
/// `name` or with a name that begins with `component`; everything that is not
/// a custom section is left as well, in its order.
pub proof fn lemma_custom_sections_stripped(sections: Seq<SectionView>, level: u8)
    requires
        level >= 2,
    ensures
        forall|i: int|
            0 <= i < optimize_spec(sections, level).len() && (#[trigger] optimize_spec(
                sections,
                level,
            )[i]).is_custom() ==> is_essential_section(optimize_spec(sections, level)[i]),
        optimize_spec(sections, level) == sections.filter(
            |s: SectionView| !s.is_custom() || is_essential_section(s),
        ),
{
    let p = |s: SectionView| retained(s, level);
    let q = |s: SectionView| !s.is_custom() || is_essential_section(s);
    lemma_filter_members(sections, p);
    assert forall|i: int| 0 <= i < sections.len() implies p(#[trigger] sections[i]) == q(
        sections[i],
    ) by {
        if let SectionView::Custom { name, .. } = sections[i] {
            if is_essential_name(name) {
                lemma_essential_is_not_debug(name);
            }
        }
    }
    lemma_filter_agree(sections, p, q);
}

/// No level touches a section that is not a custom section.
pub proof fn lemma_structure_preserved(sections: Seq<SectionView>, level: u8)
    ensures
        optimize_spec(sections, level).filter(|s: SectionView| !s.is_custom()) == sections.filter(
            |s: SectionView| !s.is_custom(),
        ),
{
    let p = |s: SectionView| retained(s, level);
    let q = |s: SectionView| !s.is_custom();
    lemma_filter_twice(sections, p, q);
    lemma_filter_agree(sections, |s: SectionView| p(s) && q(s), q);
}

/// Whether `s` begins with `prefix`.
pub fn starts_with(s: &[u8], prefix: &[u8]) -> (r: bool)
    ensures
        r == has_prefix(s@, prefix@),
{
    if prefix.len() > s.len() {
        return false;
    }
    let mut i: usize = 0;
    while i < prefix.len()
        invariant
            i <= prefix@.len() <= s@.len(),
            forall|j: int| 0 <= j < i ==> s@[j] == prefix@[j],
        decreases prefix@.len() - i,
    {
        if s[i] != prefix[i] {
            proof {
                assert(s@.subrange(0, prefix@.len() as int)[i as int] == s@[i as int]);
            }
            return false;
        }
        i += 1;
    }
    proof {
        assert(s@.subrange(0, prefix@.len() as int) =~= prefix@);
    }
    true
}

/// Whether two byte strings are the same.
pub fn same_bytes(a: &[u8], b: &[u8]) -> (r: bool)
    ensures
        r == (a@ == b@),
{
    if a.len() != b.len() {
        return false;
    }
    let r = starts_with(a, b);
    proof {
        assert(a@.subrange(0, b@.len() as int) =~= a@);
    }
    r
}

/// Whether a section name marks debug information.
pub fn is_debug(name: &[u8]) -> (r: bool)
    ensures
        r == is_debug_name(name@),
{
    let debug: [u8; 5] = [0x64, 0x65, 0x62, 0x75, 0x67];
    let dot_debug: [u8; 6] = [0x2e, 0x64, 0x65, 0x62, 0x75, 0x67];
    proof {
        assert(debug@ =~= debug_marker());
        assert(dot_debug@ =~= dot_debug_marker());
    }
    starts_with(name, debug.as_slice()) || starts_with(name, dot_debug.as_slice())
}

/// Whether a section name is on the allowlist.
pub fn is_essential(name: &[u8]) -> (r: bool)
    ensures
        r == is_essential_name(name@),
{
    let name_name: [u8; 4] = [0x6e, 0x61, 0x6d, 0x65];
    let component: [u8; 9] = [0x63, 0x6f, 0x6d, 0x70, 0x6f, 0x6e, 0x65, 0x6e, 0x74];
    proof {
        assert(name_name@ =~= name_section_name());
        assert(component@ =~= component_marker());
    }
    same_bytes(name, name_name.as_slice()) || starts_with(name, component.as_slice())
}

fn section_passes(section: &Section, strip_debug: bool, strip_custom: bool) -> (r: bool)
    ensures
        r == passes(section@, strip_debug, strip_custom),
{
    match section {
        Section::Custom { name, .. } => {
            (!strip_debug || !is_debug(name.as_slice())) && (!strip_custom || is_essential(
                name.as_slice(),
            ))
        },
        _ => true,
    }
}

/// A new module with the sections of `module` that pass the two strippers,
/// each switched on or off.
pub fn strip(module: &Module, strip_debug: bool, strip_custom: bool) -> (r: Module)
    ensures
        r@ == strip_spec(module@, strip_debug, strip_custom),
        module.wf() ==> r.wf(),
{
    let ghost pred = |s: SectionView| passes(s, strip_debug, strip_custom);
    let mut kept: Vec<Section> = Vec::new();
    let mut i: usize = 0;
    proof {
        reveal(Seq::filter);
        assert(module@.take(0) =~= Seq::<SectionView>::empty());
    }
    while i < module.sections.len()
        invariant
            i <= module.sections@.len(),
            pred == (|s: SectionView| passes(s, strip_debug, strip_custom)),
            Seq::new(kept@.len(), |j: int| kept@[j]@) == module@.take(i as int).filter(pred),
            module.wf() ==> forall|j: int| 0 <= j < kept@.len() ==> (#[trigger] kept@[j])@.wf(),
        decreases module.sections@.len() - i,
    {
        let ghost before = Seq::new(kept@.len(), |j: int| kept@[j]@);
        let section = &module.sections[i];
        proof {
            reveal(Seq::filter);
            let next = module@.take(i + 1);
            assert(next.drop_last() =~= module@.take(i as int));
            assert(next.last() == section@);
            assert(module@[i as int] == section@);
        }
        if section_passes(section, strip_debug, strip_custom) {
            kept.push(section.duplicate());
            proof {
                assert(Seq::new(kept@.len(), |j: int| kept@[j]@) =~= before.push(section@));
            }
        }
        i += 1;
    }
    proof {
        assert(module@.take(module@.len() as int) =~= module@);
    }
    let out = Module { sections: kept };
    proof {
        assert(out@ =~= Seq::new(kept@.len(), |j: int| kept@[j]@));
    }
    out
}

/// Removes the custom sections whose name begins with a debug marker.
pub fn remove_debug_sections(module: &Module) -> (r: Module)
    ensures
        r@ == strip_spec(module@, true, false),
        r@ == module@.filter(|s: SectionView| !is_debug_section(s)),
        module.wf() ==> r.wf(),
{
    proof {
        lemma_filter_agree(
            module@,
            |s: SectionView| passes(s, true, false),
            |s: SectionView| !is_debug_section(s),
        );
    }
    strip(module, true, false)
}

/// Removes every custom section that is not on the allowlist.
pub fn strip_custom_sections(module: &Module) -> (r: Module)
    ensures
        r@ == strip_spec(module@, false, true),
        r@ == module@.filter(|s: SectionView| !s.is_custom() || is_essential_section(s)),
        module.wf() ==> r.wf(),
{
    proof {
        lemma_filter_agree(
            module@,
            |s: SectionView| passes(s, false, true),
            |s: SectionView| !s.is_custom() || is_essential_section(s),
        );
    }
    strip(module, false, true)
}

/// The extension point for optimizations of imports and exports. No index
/// is rewritten at any level, so the module comes back as it is.
pub fn optimize_imports_exports(module: &Module) -> (r: Module)
    ensures
        r@ == module@,
{
    proof {
        lemma_filter_all(module@, |s: SectionView| passes(s, false, false));
    }
    strip(module, false, false)
}

/// Optimizes a module at a level from 0 to 4. A higher number is taken as 4.
///
/// Level 0 changes nothing. From level 1 on, custom sections with a debug
/// name are removed. From level 2 on, only the custom sections on the
/// allowlist stay. Levels 3 and 4 run the import and export pass as well,
/// which removes nothing. The input is left as it is; the result is a new
/// module.
pub fn optimize(module: &Module, level: u8) -> (r: Module)
    ensures
        r@ == optimize_spec(module@, level),
        module.wf() ==> r.wf(),
{
    let mut current = strip(module, false, false);
    proof {
        lemma_filter_all(module@, |s: SectionView| passes(s, false, false));
    }
    if level >= 1 {
        current = remove_debug_sections(&current);
    }
    if level >= 2 {
        current = strip_custom_sections(&current);
    }
    if level >= 3 {
        current = optimize_imports_exports(&current);
    }
    proof {
        let debug = |s: SectionView| passes(s, true, false);
        let custom = |s: SectionView| passes(s, false, true);
        let target = |s: SectionView| retained(s, level);
        if level >= 2 {
            lemma_filter_twice(module@, debug, custom);
            lemma_filter_agree(module@, |s: SectionView| debug(s) && custom(s), target);
        } else if level >= 1 {
            lemma_filter_agree(module@, debug, target);
        } else {
            lemma_filter_all(module@, target);
        }
    }
    current
}

/// Which engine does the work.
#[derive(Clone, Copy, Debug, PartialEq, Eq, Structural)]
pub enum Engine {
    /// An installed tool, run as a process of its own.
    ProcessBacked,
    /// The passes of this library.
    BuiltIn,
}

/// The optimizer, with the path of the external tool if one was found.
#[derive(Clone, Debug)]
pub struct Optimizer {
    pub wasm_opt_path: Option<String>,
}

impl Optimizer {
    /// An optimizer that delegates to the tool at `wasm_opt_path` when there
    /// is one, and otherwise works by itself.
    pub fn new(wasm_opt_path: Option<String>) -> (r: Self)
        ensures
            r.wasm_opt_path == wasm_opt_path,
    {
        Optimizer { wasm_opt_path }
    }

    /// The engine that was selected when the optimizer was made: the
    /// external tool when it is present, the built-in passes otherwise.
    pub fn engine(&self) -> (r: Engine)
        ensures
            r == (if self.wasm_opt_path is Some {
                Engine::ProcessBacked
            } else {
                Engine::BuiltIn
            }),
    {
        match &self.wasm_opt_path {
            Some(_) => Engine::ProcessBacked,
            None => Engine::BuiltIn,
        }
    }

    /// Optimizes the bytes of a module with the built-in passes.
    ///
    /// The bytes are decoded first, and a module that does not decode is
    /// refused with the decoder's error. At level 0 the input comes back
    /// byte for byte. At any other level the result is the encoding of the
    /// optimized module.
    pub fn manual_optimize(&self, wasm_bytes: &[u8], level: u8) -> (r: Result<Vec<u8>, ParseError>)
        ensures
            match decode_spec(wasm_bytes@) {
                Err(e) => r == Err::<Vec<u8>, ParseError>(e),
                Ok(sections) => r matches Ok(out) && out@ == (if level == 0 {
                    wasm_bytes@
                } else {
                    encode_spec(optimize_spec(sections, level))
                }),
            },
    {
        match decode(wasm_bytes) {
            Err(e) => Err(e),
            Ok(module) => {
                if level == 0 {
                    Ok(slice_to_vec(wasm_bytes))
                } else {
                    Ok(encode(&optimize(&module, level)))
                }
            },
        }
    }

    /// Decodes a module, removes its debug sections and encodes what is left.
    pub fn remove_debug_sections(&self, wasm_bytes: &[u8]) -> (r: Result<Vec<u8>, ParseError>)
        ensures
            match decode_spec(wasm_bytes@) {
                Err(e) => r == Err::<Vec<u8>, ParseError>(e),
                Ok(sections) => r matches Ok(out) && out@ == encode_spec(
                    strip_spec(sections, true, false),
                ),
            },
    {
        match decode(wasm_bytes) {
            Err(e) => Err(e),
            Ok(module) => Ok(encode(&remove_debug_sections(&module))),
        }
    }

    /// Decodes a module, removes the custom sections that are not on the
    /// allowlist and encodes what is left.
    pub fn strip_custom_sections(&self, wasm_bytes: &[u8]) -> (r: Result<Vec<u8>, ParseError>)
        ensures
            match decode_spec(wasm_bytes@) {
                Err(e) => r == Err::<Vec<u8>, ParseError>(e),
                Ok(sections) => r matches Ok(out) && out@ == encode_spec(
                    strip_spec(sections, false, true),
                ),
            },
    {
        match decode(wasm_bytes) {
            Err(e) => Err(e),
            Ok(module) => Ok(encode(&strip_custom_sections(&module))),
        }
    }

    /// The import and export pass on bytes: the input comes back as it is.
    pub fn optimize_imports_exports(&self, wasm_bytes: &[u8]) -> (r: Result<Vec<u8>, ParseError>)
        ensures
            r matches Ok(out) && out@ == wasm_bytes@,
    {
        Ok(slice_to_vec(wasm_bytes))
    }

    /// The arguments with which the external tool is run: the level, the
    /// input, the output behind `-o`, then the features to enable and the
    /// sections to strip.
    pub fn tool_arguments(level: u8, input: &str, output: &str) -> (r: Vec<String>)
        ensures
            views(r@) == seq![
                "-O"@ + decimal(level as nat),
                input@,
                "-o"@,
                output@,
                "--enable-bulk-memory"@,
                "--enable-reference-types"@,
                "--enable-simd"@,
                "--enable-threads"@,
                "--strip-debug"@,
                "--strip-producers"@,
            ],
    {
        let mut flag = String::from_str("-O");
        push_decimal(&mut flag, level as u64);
        let mut arguments: Vec<String> = Vec::new();
        arguments.push(flag);
        arguments.push(String::from_str(input));
        arguments.push(String::from_str("-o"));
        arguments.push(String::from_str(output));
        arguments.push(String::from_str("--enable-bulk-memory"));
        arguments.push(String::from_str("--enable-reference-types"));
        arguments.push(String::from_str("--enable-simd"));
        arguments.push(String::from_str("--enable-threads"));
        arguments.push(String::from_str("--strip-debug"));
        arguments.push(String::from_str("--strip-producers"));
        proof {
            assert(views(arguments@) =~= seq![
                "-O"@ + decimal(level as nat),
                input@,
                "-o"@,
                output@,
                "--enable-bulk-memory"@,
                "--enable-reference-types"@,
                "--enable-simd"@,
                "--enable-threads"@,
                "--strip-debug"@,
                "--strip-producers"@,
            ]);
        }
        arguments
    }

    /// Appends a custom section with the given name and data.
    pub fn write_custom_section(&self, wasm: &mut Vec<u8>, name: &[u8], data: &[u8])
        ensures
            final(wasm)@ == old(wasm)@ + crate::codec::encode_section(
                SectionView::Custom { name: name@, data: data@ },
            ),
    {
        let section = Section::Custom { name: slice_to_vec(name), data: slice_to_vec(data) };
        crate::codec::write_section(wasm, &section);
    }

    /// Appends the minimal unsigned LEB128 encoding of `value`.
    pub fn write_uleb128(&self, wasm: &mut Vec<u8>, value: u64)
        ensures
            final(wasm)@ == old(wasm)@ + leb_encode(value as nat),
    {
        write_uleb128(wasm, value);
    }
}

} // verus!
