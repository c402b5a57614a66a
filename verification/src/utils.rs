//! Small helpers around modules on disk: file names, sizes for display,
//! component names.

use crate::catalog::u32_at;
use crate::codec::{decode, decode_spec};
use crate::module::{views, Module, ParseError, Section, SectionKind, SectionView};
use crate::text::{decimal, push_decimal, push_two_digits, two_digits};
use vstd::prelude::*;
use vstd::string::StringExecFns;

verus! {

/// Whether a character is alphanumeric in the sense of the Unicode standard,
/// as `char::is_alphanumeric` decides it.
pub uninterp spec fn is_alphanumeric(c: char) -> bool;

/// `char::is_alphanumeric`: the result is the Unicode property of the
/// character, which depends on nothing else.
#[verifier::external_body]
fn char_is_alphanumeric(c: char) -> (r: bool)
    ensures
        r == is_alphanumeric(c),
{
    c.is_alphanumeric()
}

/// `Path::extension` on the path that the text names, as text. An extension
/// is the part of the file name behind its last dot, so the dot and the
/// extension stand in the path. A simple name is its own file name on every
/// platform, so its extension is what stands behind its last dot. Of other
/// paths nothing more is claimed: how they split into components depends on
/// the platform.
#[verifier::external_body]
fn path_extension(path: &str) -> (r: Option<String>)
    ensures
        r matches Some(e) ==> holds_text(path@, seq!['.'] + e@),
        is_simple_name(path@) ==> text_of(r) == simple_extension(path@),
{
    match std::path::Path::new(path).extension() {
        Some(extension) => Some(extension.to_string_lossy().into_owned()),
        None => None,
    }
}

/// `piece` stands somewhere in `text`.
pub open spec fn holds_text(text: Seq<char>, piece: Seq<char>) -> bool {
    exists|i: int|
        0 <= i && i + piece.len() <= text.len() && #[trigger] text.subrange(
            i,
            i + piece.len(),
        ) == piece
}

/// A path that is the name of a file and nothing else: it is not empty, does
/// not begin with a dot, and holds none of the characters that part the
/// components of a path on any platform.
pub open spec fn is_simple_name(path: Seq<char>) -> bool {
    &&& path.len() > 0
    &&& path[0] != '.'
    &&& forall|i: int|
        0 <= i < path.len() ==> (#[trigger] path[i]) != '/' && path[i] != '\\' && path[i] != ':'
}

/// The place of the last dot among the first `upto` characters.
pub open spec fn last_dot(name: Seq<char>, upto: int) -> Option<int>
    decreases upto,
{
    if upto <= 0 || upto > name.len() {
        None
    } else if name[upto - 1] == '.' {
        Some(upto - 1)
    } else {
        last_dot(name, upto - 1)
    }
}

/// The extension of a simple name: what stands behind its last dot.
pub open spec fn simple_extension(name: Seq<char>) -> Option<Seq<char>> {
    match last_dot(name, name.len() as int) {
        Some(dot) => Some(name.subrange(dot + 1, name.len() as int)),
        None => None,
    }
}

/// The stem of a simple name: what stands before its last dot, or the whole
/// name if it has no dot.
pub open spec fn simple_stem(name: Seq<char>) -> Seq<char> {
    match last_dot(name, name.len() as int) {
        Some(dot) => name.subrange(0, dot),
        None => name,
    }
}

/// The characters of a text that may be missing.
pub open spec fn text_of(text: Option<String>) -> Option<Seq<char>> {
    match text {
        Some(t) => Some(t@),
        None => None,
    }
}

/// Whether the path names a file with the extension `wasm`. A simple name
/// does if `wasm` stands behind its last dot. Any path that is told to name
/// one holds `.wasm`; which of the other paths that hold it name one is for
/// the platform to say.
pub fn is_wasm_file(path: &str) -> (r: bool)
    ensures
        r ==> holds_text(path@, ".wasm"@),
        is_simple_name(path@) ==> r == (simple_extension(path@) == Some("wasm"@)),
{
    let extension = path_extension(path);
    let r = is_wasm_extension(&extension);
    proof {
        reveal_strlit(".wasm");
        reveal_strlit("wasm");
        if r {
            assert(seq!['.'] + extension->0@ =~= ".wasm"@);
        }
    }
    r
}

/// Whether an extension, if there is one, is `wasm`.
pub fn is_wasm_extension(extension: &Option<String>) -> (r: bool)
    ensures
        r == (extension matches Some(e) && e@ == "wasm"@),
{
    match extension {
        Some(e) => {
            let wasm = String::from_str("wasm");
            *e == wasm
        },
        None => false,
    }
}

/// Why a component name is refused.
#[derive(Clone, Copy, Debug, PartialEq, Eq, Structural)]
pub enum NameError {
    /// The name has no characters.
    Empty,
    /// The name holds a character that is neither alphanumeric nor a hyphen
    /// nor an underscore.
    InvalidCharacter,
    /// The name starts or ends with a hyphen.
    HyphenAtEdge,
}

impl NameError {
    /// The sentence that tells a user what is wrong.
    pub fn message(&self) -> (r: &'static str)
        ensures
            r@ == match self {
                NameError::Empty => "Component name cannot be empty"@,
                NameError::InvalidCharacter =>
                    "Component name can only contain alphanumeric characters, hyphens, and underscores"@,
                NameError::HyphenAtEdge => "Component name cannot start or end with a hyphen"@,
            },
    {
        match self {
            NameError::Empty => "Component name cannot be empty",
            NameError::InvalidCharacter =>
                "Component name can only contain alphanumeric characters, hyphens, and underscores",
            NameError::HyphenAtEdge => "Component name cannot start or end with a hyphen",
        }
    }
}

/// A character that may stand in a component name.
pub open spec fn is_name_char(c: char) -> bool {
    is_alphanumeric(c) || c == '-' || c == '_'
}

/// The verdict on a component name: it must not be empty, must hold only
/// alphanumeric characters, hyphens and underscores, and must neither start
/// nor end with a hyphen. The first rule that is broken decides the error.
pub open spec fn name_verdict(name: Seq<char>) -> Result<(), NameError> {
    if name.len() == 0 {
        Err(NameError::Empty)
    } else if exists|i: int| 0 <= i < name.len() && !is_name_char(#[trigger] name[i]) {
        Err(NameError::InvalidCharacter)
    } else if name[0] == '-' || name[name.len() - 1] == '-' {
        Err(NameError::HyphenAtEdge)
    } else {
        Ok(())
    }
}

/// Checks a component name.
pub fn validate_component_name(name: &str) -> (r: Result<(), NameError>)
    ensures
        r == name_verdict(name@),
{
    let len = name.unicode_len();
    if len == 0 {
        return Err(NameError::Empty);
    }
    let mut i: usize = 0;
    while i < len
        invariant
            i <= len,
            len == name@.len(),
            forall|j: int| 0 <= j < i ==> is_name_char(#[trigger] name@[j]),
        decreases len - i,
    {
        let c = name.get_char(i);
        if !(char_is_alphanumeric(c) || c == '-' || c == '_') {
            return Err(NameError::InvalidCharacter);
        }
        i += 1;
    }
    if name.get_char(0) == '-' || name.get_char(len - 1) == '-' {
        return Err(NameError::HyphenAtEdge);
    }
    Ok(())
}

/// The index of the unit in which a size is shown: bytes, then the binary
/// multiples up to the third.
pub open spec fn unit_index(bytes: nat) -> nat {
    if bytes < 1024 {
        0
    } else if bytes < 1024 * 1024 {
        1
    } else if bytes < 1024 * 1024 * 1024 {
        2
    } else {
        3
    }
}

/// The number of bytes in a unit.
pub open spec fn unit_size(unit: nat) -> nat {
    if unit == 0 {
        1
    } else if unit == 1 {
        1024
    } else if unit == 2 {
        1024 * 1024
    } else {
        1024 * 1024 * 1024
    }
}

/// The name of a unit.
pub open spec fn unit_name(unit: nat) -> Seq<char> {
    if unit == 0 {
        "B"@
    } else if unit == 1 {
        "KB"@
    } else if unit == 2 {
        "MB"@
    } else {
        "GB"@
    }
}

/// `num / den` rounded to the nearest integer, a tie going to the even one.
pub open spec fn round_half_even(num: nat, den: nat) -> nat {
    let q = num / den;
    let r = num % den;
    if 2 * r > den || (2 * r == den && q % 2 == 1) {
        q + 1
    } else {
        q
    }
}

/// The spacing of the numbers with 53 significant bits around `n`: 1 below
/// 2^53, then doubling with every further bit.
pub open spec fn precision_step(n: nat) -> nat {
    if n < 0x20_0000_0000_0000 {
        1
    } else if n < 0x40_0000_0000_0000 {
        2
    } else if n < 0x80_0000_0000_0000 {
        4
    } else if n < 0x100_0000_0000_0000 {
        8
    } else if n < 0x200_0000_0000_0000 {
        16
    } else if n < 0x400_0000_0000_0000 {
        32
    } else if n < 0x800_0000_0000_0000 {
        64
    } else if n < 0x1000_0000_0000_0000 {
        128
    } else if n < 0x2000_0000_0000_0000 {
        256
    } else if n < 0x4000_0000_0000_0000 {
        512
    } else if n < 0x8000_0000_0000_0000 {
        1024
    } else {
        2048
    }
}

/// `n` with 53 significant bits: the nearest multiple of its precision step,
/// a tie going to the even multiple.
pub open spec fn with_53_bits(n: nat) -> nat {
    round_half_even(n, precision_step(n)) * precision_step(n)
}

/// The size in hundredths of its unit: the count of bytes is first taken
/// with 53 significant bits, then divided by the unit and rounded to two
/// decimals, ties going to the even hundredth.
pub open spec fn hundredths(bytes: nat) -> nat {
    round_half_even(with_53_bits(bytes) * 100, unit_size(unit_index(bytes)))
}

/// The text of a size: a whole number of bytes below 1024, otherwise the
/// size in the largest unit that it reaches, with two decimals.
pub open spec fn format_size_spec(bytes: nat) -> Seq<char> {
    let unit = unit_index(bytes);
    if unit == 0 {
        decimal(bytes) + " "@ + unit_name(unit)
    } else {
        decimal(hundredths(bytes) / 100) + "."@ + two_digits(hundredths(bytes) % 100) + " "@
            + unit_name(unit)
    }
}

fn rounded_half_even(num: u128, den: u128) -> (r: u128)
    requires
        0 < den <= 0x1_0000_0000,
        num <= 0x1_0000_0000_0000_0000_0000,
    ensures
        r == round_half_even(num as nat, den as nat),
{
    let q: u128 = num / den;
    let r: u128 = num % den;
    if 2 * r > den || (2 * r == den && q % 2 == 1) {
        q + 1
    } else {
        q
    }
}

fn step_of(bytes: u64) -> (r: u64)
    ensures
        r == precision_step(bytes as nat),
        1 <= r <= 2048,
{
    if bytes < 0x20_0000_0000_0000 {
        1
    } else if bytes < 0x40_0000_0000_0000 {
        2
    } else if bytes < 0x80_0000_0000_0000 {
        4
    } else if bytes < 0x100_0000_0000_0000 {
        8
    } else if bytes < 0x200_0000_0000_0000 {
        16
    } else if bytes < 0x400_0000_0000_0000 {
        32
    } else if bytes < 0x800_0000_0000_0000 {
        64
    } else if bytes < 0x1000_0000_0000_0000 {
        128
    } else if bytes < 0x2000_0000_0000_0000 {
        256
    } else if bytes < 0x4000_0000_0000_0000 {
        512
    } else if bytes < 0x8000_0000_0000_0000 {
        1024
    } else {
        2048
    }
}

/// The text of a size in bytes, for display.
pub fn format_size(bytes: u64) -> (r: String)
    ensures
        r@ == format_size_spec(bytes as nat),
{
    let mut out = String::new();
    if bytes < 1024 {
        push_decimal(&mut out, bytes);
        out.append(" ");
        out.append("B");
        proof {
            assert(out@ =~= format_size_spec(bytes as nat));
        }
        return out;
    }
    let unit: u128 = if bytes < 1024 * 1024 {
        1024
    } else if bytes < 1024 * 1024 * 1024 {
        1024 * 1024
    } else {
        1024 * 1024 * 1024
    };
    let step: u64 = step_of(bytes);
    let multiples: u128 = rounded_half_even(bytes as u128, step as u128);
    proof {
        lemma_with_53_bits_bound(bytes as nat);
        assert(multiples * step <= 0x1_0000_0000_0000_0000) by (nonlinear_arith)
            requires
                multiples <= 0x20_0000_0000_0000,
                step <= 2048,
        ;
    }
    let exact: u128 = multiples * (step as u128);
    let scaled: u128 = exact * 100;
    let h: u128 = rounded_half_even(scaled, unit);
    assert(h < 0x1_0000_0000_0000_0000) by (nonlinear_arith)
        requires
            h == round_half_even(scaled as nat, unit as nat),
            unit >= 1024,
            scaled <= 0x64_0000_0000_0000_0000,
    ;
    let whole: u64 = (h / 100) as u64;
    let cents: u64 = (h % 100) as u64;
    push_decimal(&mut out, whole);
    out.append(".");
    push_two_digits(&mut out, cents);
    out.append(" ");
    if bytes < 1024 * 1024 {
        out.append("KB");
    } else if bytes < 1024 * 1024 * 1024 {
        out.append("MB");
    } else {
        out.append("GB");
    }
    proof {
        assert(h == hundredths(bytes as nat));
        assert(out@ =~= format_size_spec(bytes as nat));
    }
    out
}

/// Taken with 53 significant bits, a 64-bit count is at most 2^53 steps of
/// its precision, and below 2^53 it is the count itself.
proof fn lemma_with_53_bits_bound(n: nat)
    requires
        n <= u64::MAX,
    ensures
        round_half_even(n, precision_step(n)) <= 0x20_0000_0000_0000,
        with_53_bits(n) <= 0x1_0000_0000_0000_0000,
        n < 0x20_0000_0000_0000 ==> with_53_bits(n) == n,
{
    let s = precision_step(n);
    if n < 0x20_0000_0000_0000 {
        assert(n / 1 == n && n % 1 == 0);
    } else if n < 0x40_0000_0000_0000 {
        assert(n / 2 < 0x20_0000_0000_0000);
    } else if n < 0x80_0000_0000_0000 {
        assert(n / 4 < 0x20_0000_0000_0000);
    } else if n < 0x100_0000_0000_0000 {
        assert(n / 8 < 0x20_0000_0000_0000);
    } else if n < 0x200_0000_0000_0000 {
        assert(n / 16 < 0x20_0000_0000_0000);
    } else if n < 0x400_0000_0000_0000 {
        assert(n / 32 < 0x20_0000_0000_0000);
    } else if n < 0x800_0000_0000_0000 {
        assert(n / 64 < 0x20_0000_0000_0000);
    } else if n < 0x1000_0000_0000_0000 {
        assert(n / 128 < 0x20_0000_0000_0000);
    } else if n < 0x2000_0000_0000_0000 {
        assert(n / 256 < 0x20_0000_0000_0000);
    } else if n < 0x4000_0000_0000_0000 {
        assert(n / 512 < 0x20_0000_0000_0000);
    } else if n < 0x8000_0000_0000_0000 {
        assert(n / 1024 < 0x20_0000_0000_0000);
    } else {
        assert(n / 2048 < 0x20_0000_0000_0000);
    }
    let m = round_half_even(n, s);
    assert(m <= 0x20_0000_0000_0000);
    assert(m * s <= 0x1_0000_0000_0000_0000) by (nonlinear_arith)
        requires
            m <= 0x20_0000_0000_0000,
            s <= 2048,
    ;
}

/// The text that `String::from_utf8_lossy` makes of a byte string.
pub uninterp spec fn utf8_lossy(bytes: Seq<u8>) -> Seq<char>;

/// `String::from_utf8_lossy`: the text depends on the bytes alone.
#[verifier::external_body]
pub(crate) fn lossy_text(bytes: &[u8]) -> (r: String)
    ensures
        r@ == utf8_lossy(bytes@),
{
    String::from_utf8_lossy(bytes).into_owned()
}

/// A summary of a module for display.
#[derive(Clone, Debug)]
pub struct WasmInfo {
    /// The length of the encoded module in bytes.
    pub size: usize,
    /// The number of entries that the import section announces.
    pub imports: usize,
    /// The number of entries that the export section announces.
    pub exports: usize,
    /// The number of entries that the function section announces.
    pub functions: usize,
    /// A label for each section that has one, in the order of the sections.
    pub sections: Vec<String>,
}

/// The mathematical value of a [`WasmInfo`].
pub struct WasmInfoView {
    pub size: nat,
    pub imports: nat,
    pub exports: nat,
    pub functions: nat,
    pub sections: Seq<Seq<char>>,
}

impl View for WasmInfo {
    type V = WasmInfoView;

    open spec fn view(&self) -> WasmInfoView {
        WasmInfoView {
            size: self.size as nat,
            imports: self.imports as nat,
            exports: self.exports as nat,
            functions: self.functions as nat,
            sections: views(self.sections@),
        }
    }
}

/// The label of a structural kind. The start section has none.
pub open spec fn kind_label(kind: SectionKind) -> Option<Seq<char>> {
    match kind {
        SectionKind::Type => Some("Type"@),
        SectionKind::Import => Some("Import"@),
        SectionKind::Function => Some("Function"@),
        SectionKind::Table => Some("Table"@),
        SectionKind::Memory => Some("Memory"@),
        SectionKind::Global => Some("Global"@),
        SectionKind::Export => Some("Export"@),
        SectionKind::Start => None,
        SectionKind::Element => Some("Element"@),
        SectionKind::Code => Some("Code"@),
        SectionKind::Data => Some("Data"@),
    }
}

/// The summary after one more section. An import, export or function
/// section sets its count; every section that has a label adds it. Sections
/// of unknown kind are passed over.
pub open spec fn note_section(info: WasmInfoView, section: SectionView) -> Result<
    WasmInfoView,
    ParseError,
> {
    match section {
        SectionView::Custom { name, data } => Ok(
            WasmInfoView {
                sections: info.sections.push("Custom("@ + utf8_lossy(name) + ")"@),
                ..info
            },
        ),
        SectionView::Unknown { .. } => Ok(info),
        SectionView::Standard { kind, payload } => {
            let labelled = match kind_label(kind) {
                Some(label) => WasmInfoView { sections: info.sections.push(label), ..info },
                None => info,
            };
            if kind == SectionKind::Import || kind == SectionKind::Export || kind
                == SectionKind::Function {
                match u32_at(payload, 0) {
                    Err(e) => Err(e),
                    Ok((count, next)) => Ok(
                        if kind == SectionKind::Import {
                            WasmInfoView { imports: count as nat, ..labelled }
                        } else if kind == SectionKind::Export {
                            WasmInfoView { exports: count as nat, ..labelled }
                        } else {
                            WasmInfoView { functions: count as nat, ..labelled }
                        },
                    ),
                }
            } else {
                Ok(labelled)
            }
        },
    }
}

/// The summary after the sections from `from` on have been noted, one after
/// the other.
pub open spec fn note_sections(info: WasmInfoView, sections: Seq<SectionView>, from: int) -> Result<
    WasmInfoView,
    ParseError,
>
    decreases sections.len() - from,
{
    if from < 0 || from >= sections.len() {
        Ok(info)
    } else {
        match note_section(info, sections[from]) {
            Err(e) => Err(e),
            Ok(next) => note_sections(next, sections, from + 1),
        }
    }
}

/// The summary of a module of the given encoded size.
pub open spec fn summary_spec(size: nat, sections: Seq<SectionView>) -> Result<
    WasmInfoView,
    ParseError,
> {
    note_sections(
        WasmInfoView { size, imports: 0, exports: 0, functions: 0, sections: Seq::empty() },
        sections,
        0,
    )
}

/// The summary that the bytes of a module give, or the error that stops
/// their decoding.
pub open spec fn wasm_info_spec(bytes: Seq<u8>) -> Result<WasmInfoView, ParseError> {
    match decode_spec(bytes) {
        Err(e) => Err(e),
        Ok(sections) => summary_spec(bytes.len(), sections),
    }
}

fn label_of(kind: SectionKind) -> (r: Option<String>)
    ensures
        match r {
            Some(label) => kind_label(kind) == Some(label@),
            None => kind_label(kind) is None,
        },
{
    match kind {
        SectionKind::Type => Some(String::from_str("Type")),
        SectionKind::Import => Some(String::from_str("Import")),
        SectionKind::Function => Some(String::from_str("Function")),
        SectionKind::Table => Some(String::from_str("Table")),
        SectionKind::Memory => Some(String::from_str("Memory")),
        SectionKind::Global => Some(String::from_str("Global")),
        SectionKind::Export => Some(String::from_str("Export")),
        SectionKind::Start => None,
        SectionKind::Element => Some(String::from_str("Element")),
        SectionKind::Code => Some(String::from_str("Code")),
        SectionKind::Data => Some(String::from_str("Data")),
    }
}

/// Notes one more section in a summary.
fn note(info: &mut WasmInfo, section: &Section) -> (r: Result<(), ParseError>)
    ensures
        match r {
            Ok(()) => note_section(old(info)@, section@) == Ok::<WasmInfoView, ParseError>(
                final(info)@,
            ),
            Err(e) => note_section(old(info)@, section@) == Err::<WasmInfoView, ParseError>(e),
        },
{
    match section {
        Section::Custom { name, data } => {
            let mut label = String::from_str("Custom(");
            label.append(lossy_text(name.as_slice()).as_str());
            label.append(")");
            info.sections.push(label);
            proof {
                assert(views(info.sections@) =~= old(info)@.sections.push(
                    "Custom("@ + utf8_lossy(name@) + ")"@,
                ));
            }
            Ok(())
        },
        Section::Unknown { .. } => Ok(()),
        Section::Standard { kind, payload } => {
            let counted = match kind {
                SectionKind::Import | SectionKind::Export | SectionKind::Function => true,
                _ => false,
            };
            let count: u32 = if counted {
                match crate::catalog::read_u32(payload.as_slice(), 0) {
                    Err(e) => {
                        return Err(e);
                    },
                    Ok((count, next)) => count,
                }
            } else {
                0
            };
            match label_of(*kind) {
                Some(label) => {
                    info.sections.push(label);
                    proof {
                        assert(views(info.sections@) =~= old(info)@.sections.push(label@));
                    }
                },
                None => {},
            }
            match kind {
                SectionKind::Import => {
                    info.imports = count as usize;
                },
                SectionKind::Export => {
                    info.exports = count as usize;
                },
                SectionKind::Function => {
                    info.functions = count as usize;
                },
                _ => {},
            }
            Ok(())
        },
    }
}

/// Summarizes a decoded module whose encoding has `size` bytes.
pub fn summarize(module: &Module, size: usize) -> (r: Result<WasmInfo, ParseError>)
    ensures
        match r {
            Ok(info) => summary_spec(size as nat, module@) == Ok::<WasmInfoView, ParseError>(info@),
            Err(e) => summary_spec(size as nat, module@) == Err::<WasmInfoView, ParseError>(e),
        },
{
    let mut info = WasmInfo { size, imports: 0, exports: 0, functions: 0, sections: Vec::new() };
    proof {
        assert(info@.sections =~= Seq::<Seq<char>>::empty());
    }
    let mut i: usize = 0;
    while i < module.sections.len()
        invariant
            i <= module.sections@.len(),
            summary_spec(size as nat, module@) == note_sections(info@, module@, i as int),
        decreases module.sections@.len() - i,
    {
        proof {
            assert(module@[i as int] == module.sections@[i as int]@);
        }
        match note(&mut info, &module.sections[i]) {
            Err(e) => {
                return Err(e);
            },
            Ok(()) => {},
        }
        i += 1;
    }
    Ok(info)
}

/// Summarizes the bytes of a module: its size, the counts of its imports,
/// exports and functions, and a label for each section.
pub fn get_wasm_info(wasm_bytes: &[u8]) -> (r: Result<WasmInfo, ParseError>)
    ensures
        match r {
            Ok(info) => wasm_info_spec(wasm_bytes@) == Ok::<WasmInfoView, ParseError>(info@),
            Err(e) => wasm_info_spec(wasm_bytes@) == Err::<WasmInfoView, ParseError>(e),
        },
{
    match decode(wasm_bytes) {
        Err(e) => Err(e),
        Ok(module) => summarize(&module, wasm_bytes.len()),
    }
}

} // verus!
