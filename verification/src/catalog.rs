//! The section catalog: a typed projection over the sections of a module.
//!
//! The catalog reads the entries of the import and export sections, the
//! counts that open the other structured sections, and looks custom sections
//! up by name. It never changes a module. Offsets in its errors count from
//! the start of the payload of the section that is being read.

use crate::codec::{append_bytes, bytes_between, length_error};
use crate::leb128::{
    leb_decode, leb_encode, lemma_leb_decode_bounds, lemma_leb_read_local, lemma_leb_round_trip,
    occurs_at, read_uleb128, write_uleb128,
};
use crate::module::{
    views, Module, ParseError, ParseErrorReason, Section, SectionKind, SectionView,
};
use vstd::prelude::*;

verus! {

/// What an import asks for or an export offers.
#[derive(Clone, Copy, Debug, PartialEq, Eq, Hash, Structural)]
pub enum ExternKind {
    Function,
    Table,
    Memory,
    Global,
    Tag,
}

impl ExternKind {
    /// The byte that stands for the kind.
    pub open spec fn byte_spec(self) -> u8 {
        match self {
            ExternKind::Function => 0,
            ExternKind::Table => 1,
            ExternKind::Memory => 2,
            ExternKind::Global => 3,
            ExternKind::Tag => 4,
        }
    }

    /// The kind that a byte stands for, if it stands for one.
    pub open spec fn of_byte(b: u8) -> Option<ExternKind> {
        if b == 0 {
            Some(ExternKind::Function)
        } else if b == 1 {
            Some(ExternKind::Table)
        } else if b == 2 {
            Some(ExternKind::Memory)
        } else if b == 3 {
            Some(ExternKind::Global)
        } else if b == 4 {
            Some(ExternKind::Tag)
        } else {
            None
        }
    }

    /// The byte that stands for the kind.
    #[verifier::when_used_as_spec(byte_spec)]
    pub fn byte(self) -> (r: u8)
        ensures
            r == self.byte_spec(),
            ExternKind::of_byte(r) == Some(self),
    {
        match self {
            ExternKind::Function => 0,
            ExternKind::Table => 1,
            ExternKind::Memory => 2,
            ExternKind::Global => 3,
            ExternKind::Tag => 4,
        }
    }

    /// The kind that a byte stands for, if it stands for one.
    pub fn from_byte(b: u8) -> (r: Option<ExternKind>)
        ensures
            r == ExternKind::of_byte(b),
    {
        match b {
            0 => Some(ExternKind::Function),
            1 => Some(ExternKind::Table),
            2 => Some(ExternKind::Memory),
            3 => Some(ExternKind::Global),
            4 => Some(ExternKind::Tag),
            _ => None,
        }
    }
}

/// One entry of an import section.
#[derive(Clone, Debug, PartialEq, Eq)]
pub struct ImportEntry {
    /// The name of the module that is asked.
    pub module: Vec<u8>,
    /// The name of the item that is asked for.
    pub name: Vec<u8>,
    pub kind: ExternKind,
    /// The type descriptor: the bytes that follow the kind byte.
    pub descriptor: Vec<u8>,
}

/// The mathematical value of an [`ImportEntry`].
pub struct ImportEntryView {
    pub module: Seq<u8>,
    pub name: Seq<u8>,
    pub kind: ExternKind,
    pub descriptor: Seq<u8>,
}

impl View for ImportEntry {
    type V = ImportEntryView;

    open spec fn view(&self) -> ImportEntryView {
        ImportEntryView {
            module: self.module@,
            name: self.name@,
            kind: self.kind,
            descriptor: self.descriptor@,
        }
    }
}

/// One entry of an export section.
#[derive(Clone, Debug, PartialEq, Eq)]
pub struct ExportEntry {
    pub name: Vec<u8>,
    pub kind: ExternKind,
    /// The index of the exported item in the index space of its kind.
    pub index: u32,
}

/// The mathematical value of an [`ExportEntry`].
pub struct ExportEntryView {
    pub name: Seq<u8>,
    pub kind: ExternKind,
    pub index: u32,
}

impl View for ExportEntry {
    type V = ExportEntryView;

    open spec fn view(&self) -> ExportEntryView {
        ExportEntryView { name: self.name@, kind: self.kind, index: self.index }
    }
}

/// The error with the given reason at the given offset.
pub open spec fn error_at(offset: int, reason: ParseErrorReason) -> ParseError {
    ParseError { offset: offset as usize, reason }
}

/// The 32-bit integer at `pos`, with the offset behind it.
pub open spec fn u32_at(s: Seq<u8>, pos: int) -> Result<(u32, int), ParseError> {
    match leb_decode(s, pos) {
        Err(e) => Err(length_error(e, pos)),
        Ok((v, n)) => if v > u32::MAX {
            Err(error_at(pos, ParseErrorReason::OutOfRange))
        } else {
            Ok((v as u32, pos + n))
        },
    }
}

/// The 64-bit integer at `pos` is skipped: the offset behind it.
pub open spec fn u64_end(s: Seq<u8>, pos: int) -> Result<int, ParseError> {
    match leb_decode(s, pos) {
        Err(e) => Err(length_error(e, pos)),
        Ok((v, n)) => Ok(pos + n),
    }
}

/// The byte at `pos`.
pub open spec fn byte_at(s: Seq<u8>, pos: int) -> Result<u8, ParseError> {
    if 0 <= pos < s.len() {
        Ok(s[pos])
    } else {
        Err(error_at(pos, ParseErrorReason::UnexpectedEnd))
    }
}

/// The name at `pos`: a length and that many bytes. With the offset behind it.
pub open spec fn name_at(s: Seq<u8>, pos: int) -> Result<(Seq<u8>, int), ParseError> {
    match u32_at(s, pos) {
        Err(e) => Err(e),
        Ok((len, start)) => if len > s.len() - start {
            Err(error_at(pos, ParseErrorReason::LengthOverrun))
        } else {
            Ok((s.subrange(start, start + len), start + len))
        },
    }
}

/// The offset behind the limits at `pos`: a flag byte, a minimum, and a
/// maximum when the lowest bit of the flag is set.
pub open spec fn limits_end(s: Seq<u8>, pos: int) -> Result<int, ParseError> {
    match byte_at(s, pos) {
        Err(e) => Err(e),
        Ok(flag) => if flag > 7 {
            Err(error_at(pos, ParseErrorReason::Unsupported))
        } else {
            match u64_end(s, pos + 1) {
                Err(e) => Err(e),
                Ok(after_min) => if flag % 2 == 1 {
                    u64_end(s, after_min)
                } else {
                    Ok(after_min)
                },
            }
        },
    }
}

/// A value type or reference type that takes one byte. The two bytes that
/// open a longer reference type are not handled.
pub open spec fn one_byte_type_at(s: Seq<u8>, pos: int) -> Result<int, ParseError> {
    match byte_at(s, pos) {
        Err(e) => Err(e),
        Ok(b) => if b == 0x63 || b == 0x64 {
            Err(error_at(pos, ParseErrorReason::Unsupported))
        } else {
            Ok(pos + 1)
        },
    }
}

/// The offset behind the type descriptor of an import of the given kind.
pub open spec fn descriptor_end(s: Seq<u8>, kind: ExternKind, pos: int) -> Result<int, ParseError> {
    match kind {
        ExternKind::Function => match u32_at(s, pos) {
            Err(e) => Err(e),
            Ok((index, end)) => Ok(end),
        },
        ExternKind::Table => match one_byte_type_at(s, pos) {
            Err(e) => Err(e),
            Ok(after) => limits_end(s, after),
        },
        ExternKind::Memory => limits_end(s, pos),
        ExternKind::Global => match one_byte_type_at(s, pos) {
            Err(e) => Err(e),
            Ok(after) => match byte_at(s, after) {
                Err(e) => Err(e),
                Ok(mutability) => if mutability > 1 {
                    Err(error_at(after, ParseErrorReason::InvalidEntry))
                } else {
                    Ok(after + 1)
                },
            },
        },
        ExternKind::Tag => match byte_at(s, pos) {
            Err(e) => Err(e),
            Ok(attribute) => if attribute != 0 {
                Err(error_at(pos, ParseErrorReason::InvalidEntry))
            } else {
                match u32_at(s, pos + 1) {
                    Err(e) => Err(e),
                    Ok((index, end)) => Ok(end),
                }
            },
        },
    }
}

/// The kind byte at `pos`.
pub open spec fn kind_at(s: Seq<u8>, pos: int) -> Result<ExternKind, ParseError> {
    match byte_at(s, pos) {
        Err(e) => Err(e),
        Ok(b) => match ExternKind::of_byte(b) {
            None => Err(error_at(pos, ParseErrorReason::InvalidEntry)),
            Some(kind) => Ok(kind),
        },
    }
}

/// The import entry at `pos`, with the offset behind it.
pub open spec fn import_at(s: Seq<u8>, pos: int) -> Result<(ImportEntryView, int), ParseError> {
    match name_at(s, pos) {
        Err(e) => Err(e),
        Ok((module, after_module)) => match name_at(s, after_module) {
            Err(e) => Err(e),
            Ok((name, after_name)) => match kind_at(s, after_name) {
                Err(e) => Err(e),
                Ok(kind) => match descriptor_end(s, kind, after_name + 1) {
                    Err(e) => Err(e),
                    Ok(end) => Ok(
                        (
                            ImportEntryView {
                                module,
                                name,
                                kind,
                                descriptor: s.subrange(after_name + 1, end),
                            },
                            end,
                        ),
                    ),
                },
            },
        },
    }
}

/// The export entry at `pos`, with the offset behind it.
pub open spec fn export_at(s: Seq<u8>, pos: int) -> Result<(ExportEntryView, int), ParseError> {
    match name_at(s, pos) {
        Err(e) => Err(e),
        Ok((name, after_name)) => match kind_at(s, after_name) {
            Err(e) => Err(e),
            Ok(kind) => match u32_at(s, after_name + 1) {
                Err(e) => Err(e),
                Ok((index, end)) => Ok((ExportEntryView { name, kind, index }, end)),
            },
        },
    }
}

/// `count` import entries from `pos` on, with the offset behind the last.
pub open spec fn imports_from(s: Seq<u8>, pos: int, count: nat) -> Result<
    (Seq<ImportEntryView>, int),
    ParseError,
>
    decreases count,
{
    if count == 0 {
        Ok((Seq::empty(), pos))
    } else {
        match import_at(s, pos) {
            Err(e) => Err(e),
            Ok((entry, next)) => match imports_from(s, next, (count - 1) as nat) {
                Err(e) => Err(e),
                Ok((rest, end)) => Ok((seq![entry] + rest, end)),
            },
        }
    }
}

/// `count` export entries from `pos` on, with the offset behind the last.
pub open spec fn exports_from(s: Seq<u8>, pos: int, count: nat) -> Result<
    (Seq<ExportEntryView>, int),
    ParseError,
>
    decreases count,
{
    if count == 0 {
        Ok((Seq::empty(), pos))
    } else {
        match export_at(s, pos) {
            Err(e) => Err(e),
            Ok((entry, next)) => match exports_from(s, next, (count - 1) as nat) {
                Err(e) => Err(e),
                Ok((rest, end)) => Ok((seq![entry] + rest, end)),
            },
        }
    }
}

/// The entries of an import section: a count, then that many entries, and
/// nothing behind them.
pub open spec fn parse_imports_spec(payload: Seq<u8>) -> Result<Seq<ImportEntryView>, ParseError> {
    match u32_at(payload, 0) {
        Err(e) => Err(e),
        Ok((count, start)) => match imports_from(payload, start, count as nat) {
            Err(e) => Err(e),
            Ok((entries, end)) => if end != payload.len() {
                Err(error_at(end, ParseErrorReason::TrailingBytes))
            } else {
                Ok(entries)
            },
        },
    }
}

/// The entries of an export section: a count, then that many entries, and
/// nothing behind them.
pub open spec fn parse_exports_spec(payload: Seq<u8>) -> Result<Seq<ExportEntryView>, ParseError> {
    match u32_at(payload, 0) {
        Err(e) => Err(e),
        Ok((count, start)) => match exports_from(payload, start, count as nat) {
            Err(e) => Err(e),
            Ok((entries, end)) => if end != payload.len() {
                Err(error_at(end, ParseErrorReason::TrailingBytes))
            } else {
                Ok(entries)
            },
        },
    }
}

fn length_failure(e: crate::leb128::LebError, offset: usize) -> (r: ParseError)
    ensures
        r == length_error(e, offset as int),
{
    match e {
        crate::leb128::LebError::Truncated => ParseError {
            offset,
            reason: ParseErrorReason::TruncatedLength,
        },
        crate::leb128::LebError::Oversized => ParseError {
            offset,
            reason: ParseErrorReason::OversizedLeb,
        },
    }
}

/// Reads the 32-bit integer at `pos`.
pub fn read_u32(bytes: &[u8], pos: usize) -> (r: Result<(u32, usize), ParseError>)
    ensures
        match r {
            Ok((v, next)) => u32_at(bytes@, pos as int) == Ok::<(u32, int), ParseError>(
                (v, next as int),
            ) && pos < next <= bytes@.len(),
            Err(e) => u32_at(bytes@, pos as int) == Err::<(u32, int), ParseError>(e),
        },
{
    match read_uleb128(bytes, pos) {
        Err(e) => Err(length_failure(e, pos)),
        Ok((v, n)) => {
            if v > u32::MAX as u64 {
                Err(ParseError { offset: pos, reason: ParseErrorReason::OutOfRange })
            } else {
                Ok((v as u32, pos + n))
            }
        },
    }
}

/// Skips the 64-bit integer at `pos`.
pub fn skip_u64(bytes: &[u8], pos: usize) -> (r: Result<usize, ParseError>)
    ensures
        match r {
            Ok(next) => u64_end(bytes@, pos as int) == Ok::<int, ParseError>(next as int) && pos
                < next <= bytes@.len(),
            Err(e) => u64_end(bytes@, pos as int) == Err::<int, ParseError>(e),
        },
{
    match read_uleb128(bytes, pos) {
        Err(e) => Err(length_failure(e, pos)),
        Ok((v, n)) => Ok(pos + n),
    }
}

/// Reads the byte at `pos`.
pub fn read_byte(bytes: &[u8], pos: usize) -> (r: Result<u8, ParseError>)
    ensures
        r == byte_at(bytes@, pos as int),
        r is Ok ==> pos < bytes@.len(),
        bytes@.len() <= usize::MAX,
{
    if pos < bytes.len() {
        Ok(bytes[pos])
    } else {
        Err(ParseError { offset: pos, reason: ParseErrorReason::UnexpectedEnd })
    }
}

/// Reads the name at `pos`.
pub fn read_name(bytes: &[u8], pos: usize) -> (r: Result<(Vec<u8>, usize), ParseError>)
    ensures
        match r {
            Ok((name, next)) => name_at(bytes@, pos as int) == Ok::<(Seq<u8>, int), ParseError>(
                (name@, next as int),
            ) && pos < next <= bytes@.len(),
            Err(e) => name_at(bytes@, pos as int) == Err::<(Seq<u8>, int), ParseError>(e),
        },
{
    match read_u32(bytes, pos) {
        Err(e) => Err(e),
        Ok((len, start)) => {
            if len as usize > bytes.len() - start {
                Err(ParseError { offset: pos, reason: ParseErrorReason::LengthOverrun })
            } else {
                let end: usize = start + len as usize;
                Ok((bytes_between(bytes, start, end), end))
            }
        },
    }
}

/// Skips the limits at `pos`.
pub fn skip_limits(bytes: &[u8], pos: usize) -> (r: Result<usize, ParseError>)
    ensures
        match r {
            Ok(next) => limits_end(bytes@, pos as int) == Ok::<int, ParseError>(next as int) && pos
                < next <= bytes@.len(),
            Err(e) => limits_end(bytes@, pos as int) == Err::<int, ParseError>(e),
        },
{
    match read_byte(bytes, pos) {
        Err(e) => Err(e),
        Ok(flag) => {
            if flag > 7 {
                Err(ParseError { offset: pos, reason: ParseErrorReason::Unsupported })
            } else {
                match skip_u64(bytes, pos + 1) {
                    Err(e) => Err(e),
                    Ok(after_min) => {
                        if flag % 2 == 1 {
                            skip_u64(bytes, after_min)
                        } else {
                            Ok(after_min)
                        }
                    },
                }
            }
        },
    }
}

/// Skips the type of one byte at `pos`.
pub fn skip_one_byte_type(bytes: &[u8], pos: usize) -> (r: Result<usize, ParseError>)
    ensures
        match r {
            Ok(next) => one_byte_type_at(bytes@, pos as int) == Ok::<int, ParseError>(next as int)
                && pos < next <= bytes@.len(),
            Err(e) => one_byte_type_at(bytes@, pos as int) == Err::<int, ParseError>(e),
        },
{
    match read_byte(bytes, pos) {
        Err(e) => Err(e),
        Ok(b) => {
            if b == 0x63 || b == 0x64 {
                Err(ParseError { offset: pos, reason: ParseErrorReason::Unsupported })
            } else {
                Ok(pos + 1)
            }
        },
    }
}

fn skip_descriptor(bytes: &[u8], kind: ExternKind, pos: usize) -> (r: Result<usize, ParseError>)
    ensures
        match r {
            Ok(next) => descriptor_end(bytes@, kind, pos as int) == Ok::<int, ParseError>(
                next as int,
            ) && pos < next <= bytes@.len(),
            Err(e) => descriptor_end(bytes@, kind, pos as int) == Err::<int, ParseError>(e),
        },
{
    match kind {
        ExternKind::Function => match read_u32(bytes, pos) {
            Err(e) => Err(e),
            Ok((index, end)) => Ok(end),
        },
        ExternKind::Table => match skip_one_byte_type(bytes, pos) {
            Err(e) => Err(e),
            Ok(after) => skip_limits(bytes, after),
        },
        ExternKind::Memory => skip_limits(bytes, pos),
        ExternKind::Global => match skip_one_byte_type(bytes, pos) {
            Err(e) => Err(e),
            Ok(after) => match read_byte(bytes, after) {
                Err(e) => Err(e),
                Ok(mutability) => {
                    if mutability > 1 {
                        Err(ParseError { offset: after, reason: ParseErrorReason::InvalidEntry })
                    } else {
                        Ok(after + 1)
                    }
                },
            },
        },
        ExternKind::Tag => match read_byte(bytes, pos) {
            Err(e) => Err(e),
            Ok(attribute) => {
                if attribute != 0 {
                    Err(ParseError { offset: pos, reason: ParseErrorReason::InvalidEntry })
                } else {
                    match read_u32(bytes, pos + 1) {
                        Err(e) => Err(e),
                        Ok((index, end)) => Ok(end),
                    }
                }
            },
        },
    }
}

fn read_kind(bytes: &[u8], pos: usize) -> (r: Result<ExternKind, ParseError>)
    ensures
        r == kind_at(bytes@, pos as int),
        r is Ok ==> pos < bytes@.len(),
        bytes@.len() <= usize::MAX,
{
    match read_byte(bytes, pos) {
        Err(e) => Err(e),
        Ok(b) => match ExternKind::from_byte(b) {
            None => Err(ParseError { offset: pos, reason: ParseErrorReason::InvalidEntry }),
            Some(kind) => Ok(kind),
        },
    }
}

/// Reads the import entry at `pos`.
pub fn read_import(bytes: &[u8], pos: usize) -> (r: Result<(ImportEntry, usize), ParseError>)
    ensures
        match r {
            Ok((entry, next)) => import_at(bytes@, pos as int) == Ok::<
                (ImportEntryView, int),
                ParseError,
            >((entry@, next as int)) && pos < next <= bytes@.len(),
            Err(e) => import_at(bytes@, pos as int) == Err::<(ImportEntryView, int), ParseError>(e),
        },
{
    match read_name(bytes, pos) {
        Err(e) => Err(e),
        Ok((module, after_module)) => match read_name(bytes, after_module) {
            Err(e) => Err(e),
            Ok((name, after_name)) => match read_kind(bytes, after_name) {
                Err(e) => Err(e),
                Ok(kind) => match skip_descriptor(bytes, kind, after_name + 1) {
                    Err(e) => Err(e),
                    Ok(end) => {
                        let descriptor = bytes_between(bytes, after_name + 1, end);
                        Ok((ImportEntry { module, name, kind, descriptor }, end))
                    },
                },
            },
        },
    }
}

/// Reads the export entry at `pos`.
pub fn read_export(bytes: &[u8], pos: usize) -> (r: Result<(ExportEntry, usize), ParseError>)
    ensures
        match r {
            Ok((entry, next)) => export_at(bytes@, pos as int) == Ok::<
                (ExportEntryView, int),
                ParseError,
            >((entry@, next as int)) && pos < next <= bytes@.len(),
            Err(e) => export_at(bytes@, pos as int) == Err::<(ExportEntryView, int), ParseError>(e),
        },
{
    match read_name(bytes, pos) {
        Err(e) => Err(e),
        Ok((name, after_name)) => match read_kind(bytes, after_name) {
            Err(e) => Err(e),
            Ok(kind) => match read_u32(bytes, after_name + 1) {
                Err(e) => Err(e),
                Ok((index, end)) => Ok((ExportEntry { name, kind, index }, end)),
            },
        },
    }
}

/// `found` followed by the entries in `rest`, or the error in `rest`.
pub open spec fn extend<T>(found: Seq<T>, rest: Result<(Seq<T>, int), ParseError>) -> Result<
    (Seq<T>, int),
    ParseError,
> {
    match rest {
        Ok((more, end)) => Ok((found + more, end)),
        Err(e) => Err(e),
    }
}

/// Reads the entries of an import section from its payload.
pub fn parse_imports(payload: &[u8]) -> (r: Result<Vec<ImportEntry>, ParseError>)
    ensures
        match r {
            Ok(entries) => parse_imports_spec(payload@) == Ok::<Seq<ImportEntryView>, ParseError>(
                views(entries@),
            ),
            Err(e) => parse_imports_spec(payload@) == Err::<Seq<ImportEntryView>, ParseError>(e),
        },
{
    let (count, start) = match read_u32(payload, 0) {
        Err(e) => {
            return Err(e);
        },
        Ok(pair) => pair,
    };
    let mut entries: Vec<ImportEntry> = Vec::new();
    let mut pos: usize = start;
    let mut left: u32 = count;
    proof {
        assert(views(entries@) =~= Seq::<ImportEntryView>::empty());
        assert(extend(views(entries@), imports_from(payload@, pos as int, left as nat))
            == imports_from(payload@, start as int, count as nat)) by {
            match imports_from(payload@, pos as int, left as nat) {
                Ok((more, end)) => {
                    assert(views(entries@) + more =~= more);
                },
                Err(_) => {},
            }
        }
    }
    while left > 0
        invariant
            pos <= payload@.len(),
            u32_at(payload@, 0) == Ok::<(u32, int), ParseError>((count, start as int)),
            imports_from(payload@, start as int, count as nat) == extend(
                views(entries@),
                imports_from(payload@, pos as int, left as nat),
            ),
        decreases left,
    {
        let ghost before = views(entries@);
        match read_import(payload, pos) {
            Err(e) => {
                return Err(e);
            },
            Ok((entry, next)) => {
                proof {
                    match imports_from(payload@, next as int, (left - 1) as nat) {
                        Ok((more, end)) => {
                            assert(before + (seq![entry@] + more) =~= before.push(entry@) + more);
                        },
                        Err(_) => {},
                    }
                }
                entries.push(entry);
                proof {
                    assert(views(entries@) =~= before.push(entry@));
                }
                pos = next;
                left = left - 1;
            },
        }
    }
    proof {
        assert(views(entries@) + Seq::<ImportEntryView>::empty() =~= views(entries@));
    }
    if pos != payload.len() {
        return Err(ParseError { offset: pos, reason: ParseErrorReason::TrailingBytes });
    }
    Ok(entries)
}

/// Reads the entries of an export section from its payload.
pub fn parse_exports(payload: &[u8]) -> (r: Result<Vec<ExportEntry>, ParseError>)
    ensures
        match r {
            Ok(entries) => parse_exports_spec(payload@) == Ok::<Seq<ExportEntryView>, ParseError>(
                views(entries@),
            ),
            Err(e) => parse_exports_spec(payload@) == Err::<Seq<ExportEntryView>, ParseError>(e),
        },
{
    let (count, start) = match read_u32(payload, 0) {
        Err(e) => {
            return Err(e);
        },
        Ok(pair) => pair,
    };
    let mut entries: Vec<ExportEntry> = Vec::new();
    let mut pos: usize = start;
    let mut left: u32 = count;
    proof {
        assert(views(entries@) =~= Seq::<ExportEntryView>::empty());
        assert(extend(views(entries@), exports_from(payload@, pos as int, left as nat))
            == exports_from(payload@, start as int, count as nat)) by {
            match exports_from(payload@, pos as int, left as nat) {
                Ok((more, end)) => {
                    assert(views(entries@) + more =~= more);
                },
                Err(_) => {},
            }
        }
    }
    while left > 0
        invariant
            pos <= payload@.len(),
            u32_at(payload@, 0) == Ok::<(u32, int), ParseError>((count, start as int)),
            exports_from(payload@, start as int, count as nat) == extend(
                views(entries@),
                exports_from(payload@, pos as int, left as nat),
            ),
        decreases left,
    {
        let ghost before = views(entries@);
        match read_export(payload, pos) {
            Err(e) => {
                return Err(e);
            },
            Ok((entry, next)) => {
                proof {
                    match exports_from(payload@, next as int, (left - 1) as nat) {
                        Ok((more, end)) => {
                            assert(before + (seq![entry@] + more) =~= before.push(entry@) + more);
                        },
                        Err(_) => {},
                    }
                }
                entries.push(entry);
                proof {
                    assert(views(entries@) =~= before.push(entry@));
                }
                pos = next;
                left = left - 1;
            },
        }
    }
    proof {
        assert(views(entries@) + Seq::<ExportEntryView>::empty() =~= views(entries@));
    }
    if pos != payload.len() {
        return Err(ParseError { offset: pos, reason: ParseErrorReason::TrailingBytes });
    }
    Ok(entries)
}

/// The bytes of a name: its length, then its bytes.
pub open spec fn encode_name(name: Seq<u8>) -> Seq<u8> {
    leb_encode(name.len()) + name
}

/// The bytes of an import entry.
pub open spec fn encode_import(entry: ImportEntryView) -> Seq<u8> {
    encode_name(entry.module) + encode_name(entry.name) + seq![entry.kind.byte_spec()]
        + entry.descriptor
}

/// The bytes of an export entry.
pub open spec fn encode_export(entry: ExportEntryView) -> Seq<u8> {
    encode_name(entry.name) + seq![entry.kind.byte_spec()] + leb_encode(entry.index as nat)
}

/// The bytes of import entries, one after the other.
pub open spec fn encode_import_entries(entries: Seq<ImportEntryView>) -> Seq<u8>
    decreases entries.len(),
{
    if entries.len() == 0 {
        Seq::empty()
    } else {
        encode_import_entries(entries.drop_last()) + encode_import(entries.last())
    }
}

/// The bytes of export entries, one after the other.
pub open spec fn encode_export_entries(entries: Seq<ExportEntryView>) -> Seq<u8>
    decreases entries.len(),
{
    if entries.len() == 0 {
        Seq::empty()
    } else {
        encode_export_entries(entries.drop_last()) + encode_export(entries.last())
    }
}

/// The payload of an import section with the given entries.
pub open spec fn encode_imports_spec(entries: Seq<ImportEntryView>) -> Seq<u8> {
    leb_encode(entries.len()) + encode_import_entries(entries)
}

/// The payload of an export section with the given entries.
pub open spec fn encode_exports_spec(entries: Seq<ExportEntryView>) -> Seq<u8> {
    leb_encode(entries.len()) + encode_export_entries(entries)
}

/// Appends a name: its length, then its bytes.
pub fn write_name(out: &mut Vec<u8>, name: &[u8])
    ensures
        final(out)@ == old(out)@ + encode_name(name@),
{
    write_uleb128(out, name.len() as u64);
    append_bytes(out, name);
    proof {
        assert(out@ =~= old(out)@ + encode_name(name@));
    }
}

/// Appends an import entry.
pub fn write_import(out: &mut Vec<u8>, entry: &ImportEntry)
    ensures
        final(out)@ == old(out)@ + encode_import(entry@),
{
    write_name(out, entry.module.as_slice());
    write_name(out, entry.name.as_slice());
    out.push(entry.kind.byte());
    append_bytes(out, entry.descriptor.as_slice());
    proof {
        assert(out@ =~= old(out)@ + encode_import(entry@));
    }
}

/// Appends an export entry.
pub fn write_export(out: &mut Vec<u8>, entry: &ExportEntry)
    ensures
        final(out)@ == old(out)@ + encode_export(entry@),
{
    write_name(out, entry.name.as_slice());
    out.push(entry.kind.byte());
    write_uleb128(out, entry.index as u64);
    proof {
        assert(out@ =~= old(out)@ + encode_export(entry@));
    }
}

/// The payload of an import section with the given entries.
pub fn encode_imports(entries: &Vec<ImportEntry>) -> (r: Vec<u8>)
    ensures
        r@ == encode_imports_spec(views(entries@)),
{
    let mut out: Vec<u8> = Vec::new();
    write_uleb128(&mut out, entries.len() as u64);
    let ghost all = views(entries@);
    let mut i: usize = 0;
    proof {
        assert(all.take(0) =~= Seq::<ImportEntryView>::empty());
        assert(out@ =~= leb_encode(all.len()) + encode_import_entries(all.take(0)));
    }
    while i < entries.len()
        invariant
            i <= entries@.len(),
            all == views(entries@),
            out@ == leb_encode(all.len()) + encode_import_entries(all.take(i as int)),
        decreases entries@.len() - i,
    {
        write_import(&mut out, &entries[i]);
        proof {
            let next = all.take(i + 1);
            assert(next.drop_last() =~= all.take(i as int));
            assert(next.last() == entries@[i as int]@);
            assert(out@ =~= leb_encode(all.len()) + encode_import_entries(next));
        }
        i += 1;
    }
    proof {
        assert(all.take(all.len() as int) =~= all);
    }
    out
}

/// The payload of an export section with the given entries.
pub fn encode_exports(entries: &Vec<ExportEntry>) -> (r: Vec<u8>)
    ensures
        r@ == encode_exports_spec(views(entries@)),
{
    let mut out: Vec<u8> = Vec::new();
    write_uleb128(&mut out, entries.len() as u64);
    let ghost all = views(entries@);
    let mut i: usize = 0;
    proof {
        assert(all.take(0) =~= Seq::<ExportEntryView>::empty());
        assert(out@ =~= leb_encode(all.len()) + encode_export_entries(all.take(0)));
    }
    while i < entries.len()
        invariant
            i <= entries@.len(),
            all == views(entries@),
            out@ == leb_encode(all.len()) + encode_export_entries(all.take(i as int)),
        decreases entries@.len() - i,
    {
        write_export(&mut out, &entries[i]);
        proof {
            let next = all.take(i + 1);
            assert(next.drop_last() =~= all.take(i as int));
            assert(next.last() == entries@[i as int]@);
            assert(out@ =~= leb_encode(all.len()) + encode_export_entries(next));
        }
        i += 1;
    }
    proof {
        assert(all.take(all.len() as int) =~= all);
    }
    out
}

/// The index of the first section of a structural kind at or after `from`.
pub open spec fn section_index(sections: Seq<SectionView>, kind: SectionKind, from: int) -> Option<
    int,
>
    decreases sections.len() - from,
{
    if from < 0 || from >= sections.len() {
        None
    } else if sections[from] matches SectionView::Standard { kind: k, .. } && k == kind {
        Some(from)
    } else {
        section_index(sections, kind, from + 1)
    }
}

/// The payload of the first section of a structural kind.
pub open spec fn payload_of(sections: Seq<SectionView>, kind: SectionKind) -> Option<Seq<u8>> {
    match section_index(sections, kind, 0) {
        Some(i) => match sections[i] {
            SectionView::Standard { payload, .. } => Some(payload),
            _ => None,
        },
        None => None,
    }
}

/// The index of the first custom section with the given name at or after
/// `from`.
pub open spec fn custom_index(sections: Seq<SectionView>, name: Seq<u8>, from: int) -> Option<int>
    decreases sections.len() - from,
{
    if from < 0 || from >= sections.len() {
        None
    } else if sections[from] matches SectionView::Custom { name: n, .. } && n == name {
        Some(from)
    } else {
        custom_index(sections, name, from + 1)
    }
}

/// The imports of a module: the entries of its import section, none when it
/// has no such section.
pub open spec fn imports_spec(sections: Seq<SectionView>) -> Result<
    Seq<ImportEntryView>,
    ParseError,
> {
    match payload_of(sections, SectionKind::Import) {
        Some(payload) => parse_imports_spec(payload),
        None => Ok(Seq::empty()),
    }
}

/// The exports of a module: the entries of its export section, none when it
/// has no such section.
pub open spec fn exports_spec(sections: Seq<SectionView>) -> Result<
    Seq<ExportEntryView>,
    ParseError,
> {
    match payload_of(sections, SectionKind::Export) {
        Some(payload) => parse_exports_spec(payload),
        None => Ok(Seq::empty()),
    }
}

/// The count that opens a section of entries, or zero without a section.
pub open spec fn count_spec(sections: Seq<SectionView>, kind: SectionKind) -> Result<
    u32,
    ParseError,
> {
    match payload_of(sections, kind) {
        Some(payload) => match u32_at(payload, 0) {
            Ok((count, next)) => Ok(count),
            Err(e) => Err(e),
        },
        None => Ok(0u32),
    }
}

/// Finds the first section of a structural kind.
pub fn find_section(module: &Module, kind: SectionKind) -> (r: Option<usize>)
    ensures
        match r {
            Some(i) => section_index(module@, kind, 0) == Some(i as int) && i < module.sections@.len()
                && (module.sections@[i as int] matches Section::Standard { kind: k, .. } && k
                == kind),
            None => section_index(module@, kind, 0) is None,
        },
{
    let mut i: usize = 0;
    while i < module.sections.len()
        invariant
            i <= module.sections@.len(),
            section_index(module@, kind, 0) == section_index(module@, kind, i as int),
        decreases module.sections@.len() - i,
    {
        proof {
            assert(module@[i as int] == module.sections@[i as int]@);
        }
        match &module.sections[i] {
            Section::Standard { kind: k, .. } => {
                if k.id() == kind.id() {
                    return Some(i);
                }
            },
            _ => {},
        }
        i += 1;
    }
    None
}

/// The payload of the first section of a structural kind.
pub fn section_payload(module: &Module, kind: SectionKind) -> (r: Option<&Vec<u8>>)
    ensures
        match r {
            Some(payload) => payload_of(module@, kind) == Some(payload@),
            None => payload_of(module@, kind) is None,
        },
{
    match find_section(module, kind) {
        Some(i) => {
            proof {
                assert(module@[i as int] == module.sections@[i as int]@);
            }
            match &module.sections[i] {
                Section::Standard { payload, .. } => Some(payload),
                _ => None,
            }
        },
        None => None,
    }
}

/// Looks a custom section up by name: the data of the first one that bears
/// the name.
pub fn custom_section<'a>(module: &'a Module, name: &[u8]) -> (r: Option<&'a Vec<u8>>)
    ensures
        match custom_index(module@, name@, 0) {
            Some(i) => r matches Some(data) && (module@[i] matches SectionView::Custom {
                data: d,
                ..
            } && d == data@),
            None => r is None,
        },
{
    let mut i: usize = 0;
    while i < module.sections.len()
        invariant
            i <= module.sections@.len(),
            custom_index(module@, name@, 0) == custom_index(module@, name@, i as int),
        decreases module.sections@.len() - i,
    {
        proof {
            assert(module@[i as int] == module.sections@[i as int]@);
        }
        match &module.sections[i] {
            Section::Custom { name: n, data } => {
                if crate::optimizer::same_bytes(n.as_slice(), name) {
                    return Some(data);
                }
            },
            _ => {},
        }
        i += 1;
    }
    None
}

/// The import entries of a module.
pub fn imports_of(module: &Module) -> (r: Result<Vec<ImportEntry>, ParseError>)
    ensures
        match r {
            Ok(entries) => imports_spec(module@) == Ok::<Seq<ImportEntryView>, ParseError>(
                views(entries@),
            ),
            Err(e) => imports_spec(module@) == Err::<Seq<ImportEntryView>, ParseError>(e),
        },
{
    match section_payload(module, SectionKind::Import) {
        Some(payload) => parse_imports(payload.as_slice()),
        None => {
            let none: Vec<ImportEntry> = Vec::new();
            proof {
                assert(views(none@) =~= Seq::<ImportEntryView>::empty());
            }
            Ok(none)
        },
    }
}

/// The export entries of a module.
pub fn exports_of(module: &Module) -> (r: Result<Vec<ExportEntry>, ParseError>)
    ensures
        match r {
            Ok(entries) => exports_spec(module@) == Ok::<Seq<ExportEntryView>, ParseError>(
                views(entries@),
            ),
            Err(e) => exports_spec(module@) == Err::<Seq<ExportEntryView>, ParseError>(e),
        },
{
    match section_payload(module, SectionKind::Export) {
        Some(payload) => parse_exports(payload.as_slice()),
        None => {
            let none: Vec<ExportEntry> = Vec::new();
            proof {
                assert(views(none@) =~= Seq::<ExportEntryView>::empty());
            }
            Ok(none)
        },
    }
}

/// The number of entries that a section of a structural kind announces,
/// zero when the module has no such section.
pub fn section_count(module: &Module, kind: SectionKind) -> (r: Result<u32, ParseError>)
    ensures
        r == count_spec(module@, kind),
{
    match section_payload(module, kind) {
        Some(payload) => match read_u32(payload.as_slice(), 0) {
            Ok((count, next)) => Ok(count),
            Err(e) => Err(e),
        },
        None => Ok(0),
    }
}

/// No structural kind has more than one section: every section of a
/// structural kind is the first of its kind.
pub open spec fn unique_kinds(sections: Seq<SectionView>) -> bool {
    forall|i: int|
        0 <= i < sections.len() ==> ((#[trigger] sections[i]) matches SectionView::Standard {
            kind,
            ..
        } ==> section_index(sections, kind, 0) == Some(i))
}

/// Whether the module holds at most one section of each structural kind, as
/// the format asks. The codec does not ask for it: it keeps what it finds.
pub fn has_unique_kinds(module: &Module) -> (r: bool)
    ensures
        r == unique_kinds(module@),
{
    let mut i: usize = 0;
    while i < module.sections.len()
        invariant
            i <= module.sections@.len(),
            forall|h: int|
                0 <= h < i ==> ((#[trigger] module@[h]) matches SectionView::Standard {
                    kind,
                    ..
                } ==> section_index(module@, kind, 0) == Some(h)),
        decreases module.sections@.len() - i,
    {
        proof {
            assert(module@[i as int] == module.sections@[i as int]@);
        }
        match &module.sections[i] {
            Section::Standard { kind, .. } => {
                match find_section(module, *kind) {
                    Some(first) => {
                        if first != i {
                            return false;
                        }
                    },
                    None => {
                        return false;
                    },
                }
            },
            _ => {},
        }
        i += 1;
    }
    true
}

/// A 32-bit integer is read back from its minimal encoding.
pub proof fn lemma_u32_round_trip(s: Seq<u8>, pos: int, v: u32)
    requires
        occurs_at(s, pos, leb_encode(v as nat)),
    ensures
        u32_at(s, pos) == Ok::<(u32, int), ParseError>((v, pos + leb_encode(v as nat).len())),
{
    lemma_leb_round_trip(s, pos, v as nat);
}

/// A name whose length fits in 32 bits is read back from the bytes that
/// encode it.
pub proof fn lemma_name_round_trip(s: Seq<u8>, pos: int, name: Seq<u8>)
    requires
        name.len() <= u32::MAX,
        occurs_at(s, pos, encode_name(name)),
    ensures
        name_at(s, pos) == Ok::<(Seq<u8>, int), ParseError>(
            (name, pos + encode_name(name).len()),
        ),
{
    let prefix = leb_encode(name.len());
    let enc = encode_name(name);
    assert(s.subrange(pos, pos + prefix.len()) =~= s.subrange(pos, pos + enc.len()).subrange(
        0,
        prefix.len() as int,
    ));
    assert(enc.subrange(0, prefix.len() as int) =~= prefix);
    lemma_leb_round_trip(s, pos, name.len());
    let start = pos + prefix.len();
    assert(s.subrange(start, start + name.len()) =~= s.subrange(pos, pos + enc.len()).subrange(
        prefix.len() as int,
        enc.len() as int,
    ));
    assert(enc.subrange(prefix.len() as int, enc.len() as int) =~= name);
}

/// An export whose name fits is read back from the bytes that encode it.
pub proof fn lemma_export_round_trip(s: Seq<u8>, pos: int, entry: ExportEntryView)
    requires
        entry.name.len() <= u32::MAX,
        occurs_at(s, pos, encode_export(entry)),
    ensures
        export_at(s, pos) == Ok::<(ExportEntryView, int), ParseError>(
            (entry, pos + encode_export(entry).len()),
        ),
{
    let name = encode_name(entry.name);
    let index = leb_encode(entry.index as nat);
    let enc = encode_export(entry);
    let window = s.subrange(pos, pos + enc.len());
    assert(s.subrange(pos, pos + name.len()) =~= window.subrange(0, name.len() as int));
    assert(enc.subrange(0, name.len() as int) =~= name);
    lemma_name_round_trip(s, pos, entry.name);
    let after_name = pos + name.len();
    assert(s[after_name] == window[name.len() as int]);
    assert(enc[name.len() as int] == entry.kind.byte_spec());
    let behind = (name.len() + 1) as int;
    assert(s.subrange(after_name + 1, after_name + 1 + index.len()) =~= window.subrange(
        behind,
        enc.len() as int,
    ));
    assert(enc.subrange(behind, enc.len() as int) =~= index);
    lemma_u32_round_trip(s, after_name + 1, entry.index);
}

/// The bytes of export entries behind each other are the bytes of the first
/// entries and then those of the others.
pub proof fn lemma_encode_exports_concat(a: Seq<ExportEntryView>, b: Seq<ExportEntryView>)
    ensures
        encode_export_entries(a + b) == encode_export_entries(a) + encode_export_entries(b),
    decreases b.len(),
{
    if b.len() == 0 {
        assert(a + b =~= a);
        assert(encode_export_entries(a) + encode_export_entries(b) =~= encode_export_entries(a));
    } else {
        assert((a + b).drop_last() =~= a + b.drop_last());
        assert((a + b).last() == b.last());
        lemma_encode_exports_concat(a, b.drop_last());
        assert(encode_export_entries(a + b) =~= encode_export_entries(a) + encode_export_entries(
            b,
        ));
    }
}

/// Every name of the exports fits in 32 bits.
pub open spec fn export_names_fit(entries: Seq<ExportEntryView>) -> bool {
    forall|i: int| 0 <= i < entries.len() ==> (#[trigger] entries[i]).name.len() <= u32::MAX
}

/// Exports are read back from the bytes that encode them, whatever stands
/// before them.
pub proof fn lemma_exports_from_round_trip(prefix: Seq<u8>, entries: Seq<ExportEntryView>)
    requires
        export_names_fit(entries),
    ensures
        exports_from(
            prefix + encode_export_entries(entries),
            prefix.len() as int,
            entries.len(),
        ) == Ok::<(Seq<ExportEntryView>, int), ParseError>(
            (entries, (prefix.len() + encode_export_entries(entries).len()) as int),
        ),
    decreases entries.len(),
{
    let bytes = prefix + encode_export_entries(entries);
    let pos = prefix.len() as int;
    if entries.len() == 0 {
        assert(entries =~= Seq::<ExportEntryView>::empty());
    } else {
        let first = entries[0];
        let rest = entries.subrange(1, entries.len() as int);
        assert(entries =~= seq![first] + rest);
        lemma_encode_exports_concat(seq![first], rest);
        let one = seq![first];
        assert(one.drop_last() =~= Seq::<ExportEntryView>::empty());
        assert(encode_export_entries(one.drop_last()) =~= Seq::<u8>::empty());
        assert(one.last() == first);
        assert(encode_export_entries(one) =~= encode_export(first));
        let enc = encode_export(first);
        assert(bytes =~= prefix + enc + encode_export_entries(rest));
        assert(bytes.subrange(pos, pos + enc.len()) =~= enc);
        lemma_export_round_trip(bytes, pos, first);
        assert forall|i: int| 0 <= i < rest.len() implies (#[trigger] rest[i]).name.len()
            <= u32::MAX by {
            assert(rest[i] == entries[i + 1]);
        }
        lemma_exports_from_round_trip(prefix + enc, rest);
        assert(prefix + enc + encode_export_entries(rest) =~= (prefix + enc)
            + encode_export_entries(rest));
    }
}

/// The entries of an export section are read back from the payload that
/// encodes them.
pub proof fn lemma_exports_round_trip(entries: Seq<ExportEntryView>)
    requires
        entries.len() <= u32::MAX,
        export_names_fit(entries),
    ensures
        parse_exports_spec(encode_exports_spec(entries)) == Ok::<
            Seq<ExportEntryView>,
            ParseError,
        >(entries),
{
    let count = leb_encode(entries.len());
    let bytes = encode_exports_spec(entries);
    assert(bytes.subrange(0, count.len() as int) =~= count);
    lemma_u32_round_trip(bytes, 0, entries.len() as u32);
    lemma_exports_from_round_trip(count, entries);
}

/// A part of a window that stands in another buffer stands there too.
pub proof fn lemma_window_part(a: Seq<u8>, p: int, e: int, b: Seq<u8>, q: int, x: int, y: int)
    requires
        0 <= p <= x <= y <= e <= a.len(),
        occurs_at(b, q, a.subrange(p, e)),
    ensures
        occurs_at(b, q + (x - p), a.subrange(x, y)),
{
    assert(b.subrange(q + (x - p), q + (y - p)) =~= b.subrange(q, q + (e - p)).subrange(
        x - p,
        y - p,
    ));
    assert(a.subrange(p, e).subrange(x - p, y - p) =~= a.subrange(x, y));
}

/// Reading a 32-bit integer depends on the bytes that are read alone.
pub proof fn lemma_u32_local(a: Seq<u8>, p: int, b: Seq<u8>, q: int)
    requires
        u32_at(a, p) matches Ok((v, e)) && occurs_at(b, q, a.subrange(p, e)),
    ensures
        u32_at(a, p) matches Ok((v, e)) && p < e <= a.len() && u32_at(b, q) == Ok::<
            (u32, int),
            ParseError,
        >((v, q + (e - p))),
{
    lemma_leb_decode_bounds(a, p);
    lemma_leb_read_local(a, p, b, q, 10);
}

/// Skipping a 64-bit integer depends on the bytes that are skipped alone.
pub proof fn lemma_u64_local(a: Seq<u8>, p: int, b: Seq<u8>, q: int)
    requires
        u64_end(a, p) matches Ok(e) && occurs_at(b, q, a.subrange(p, e)),
    ensures
        u64_end(a, p) matches Ok(e) && p < e <= a.len() && u64_end(b, q) == Ok::<int, ParseError>(
            q + (e - p),
        ),
{
    lemma_leb_decode_bounds(a, p);
    lemma_leb_read_local(a, p, b, q, 10);
}

/// Where limits end lies behind their start, inside the buffer.
pub proof fn lemma_limits_bounds(a: Seq<u8>, p: int)
    ensures
        limits_end(a, p) matches Ok(e) ==> 0 <= p < e <= a.len(),
{
    lemma_leb_decode_bounds(a, p + 1);
    if let Ok(after) = u64_end(a, p + 1) {
        lemma_leb_decode_bounds(a, after);
    }
}

/// Skipping limits depends on the bytes that are skipped alone.
pub proof fn lemma_limits_local(a: Seq<u8>, p: int, b: Seq<u8>, q: int)
    requires
        limits_end(a, p) matches Ok(e) && occurs_at(b, q, a.subrange(p, e)),
    ensures
        limits_end(b, q) == Ok::<int, ParseError>(q + (limits_end(a, p)->Ok_0 - p)),
{
    let e = limits_end(a, p)->Ok_0;
    lemma_limits_bounds(a, p);
    lemma_leb_decode_bounds(a, p + 1);
    let after_min = u64_end(a, p + 1)->Ok_0;
    assert(b[q] == b.subrange(q, q + (e - p))[0]);
    assert(a.subrange(p, e)[0] == a[p]);
    if a[p] % 2 == 1 {
        lemma_leb_decode_bounds(a, after_min);
    }
    lemma_window_part(a, p, e, b, q, p + 1, after_min);
    lemma_u64_local(a, p + 1, b, q + 1);
    if a[p] % 2 == 1 {
        lemma_window_part(a, p, e, b, q, after_min, e);
        lemma_u64_local(a, after_min, b, q + (after_min - p));
    }
}

/// Where a type descriptor ends lies behind its start, inside the buffer.
pub proof fn lemma_descriptor_bounds(a: Seq<u8>, kind: ExternKind, p: int)
    ensures
        descriptor_end(a, kind, p) matches Ok(e) ==> 0 <= p < e <= a.len(),
{
    lemma_leb_decode_bounds(a, p);
    lemma_leb_decode_bounds(a, p + 1);
    lemma_limits_bounds(a, p);
    lemma_limits_bounds(a, p + 1);
}

/// Skipping a type descriptor depends on the bytes that are skipped alone.
pub proof fn lemma_descriptor_local(a: Seq<u8>, kind: ExternKind, p: int, b: Seq<u8>, q: int)
    requires
        descriptor_end(a, kind, p) matches Ok(e) && occurs_at(b, q, a.subrange(p, e)),
    ensures
        descriptor_end(b, kind, q) == Ok::<int, ParseError>(
            q + (descriptor_end(a, kind, p)->Ok_0 - p),
        ),
{
    let e = descriptor_end(a, kind, p)->Ok_0;
    lemma_descriptor_bounds(a, kind, p);
    let window = a.subrange(p, e);
    assert(b[q] == b.subrange(q, q + (e - p))[0]);
    assert(window[0] == a[p]);
    match kind {
        ExternKind::Function => {
            lemma_u32_local(a, p, b, q);
        },
        ExternKind::Table => {
            lemma_limits_bounds(a, p + 1);
            lemma_window_part(a, p, e, b, q, p + 1, e);
            lemma_limits_local(a, p + 1, b, q + 1);
        },
        ExternKind::Memory => {
            lemma_limits_local(a, p, b, q);
        },
        ExternKind::Global => {
            assert(b[q + 1] == b.subrange(q, q + (e - p))[1]);
            assert(window[1] == a[p + 1]);
        },
        ExternKind::Tag => {
            lemma_leb_decode_bounds(a, p + 1);
            lemma_window_part(a, p, e, b, q, p + 1, e);
            lemma_u32_local(a, p + 1, b, q + 1);
        },
    }
}

/// An import can be written and read back: its names fit in 32 bits, and
/// its type descriptor is one descriptor of its kind and nothing more.
pub open spec fn import_wf(entry: ImportEntryView) -> bool {
    &&& entry.module.len() <= u32::MAX
    &&& entry.name.len() <= u32::MAX
    &&& descriptor_end(entry.descriptor, entry.kind, 0) == Ok::<int, ParseError>(
        entry.descriptor.len() as int,
    )
}

/// Every import of the sequence can be written and read back.
pub open spec fn imports_wf(entries: Seq<ImportEntryView>) -> bool {
    forall|i: int| 0 <= i < entries.len() ==> import_wf(#[trigger] entries[i])
}

/// An import that was read can be written and read back.
pub proof fn lemma_import_at_wf(s: Seq<u8>, pos: int)
    ensures
        import_at(s, pos) matches Ok((entry, next)) ==> import_wf(entry) && 0 <= pos < next
            <= s.len(),
{
    if let Ok((entry, next)) = import_at(s, pos) {
        lemma_leb_decode_bounds(s, pos);
        let after_module = name_at(s, pos)->Ok_0.1;
        lemma_leb_decode_bounds(s, after_module);
        let after_name = name_at(s, after_module)->Ok_0.1;
        let kind = kind_at(s, after_name)->Ok_0;
        lemma_descriptor_bounds(s, kind, after_name + 1);
        assert(s.subrange(after_name + 1, next).subrange(0, next - (after_name + 1))
            =~= s.subrange(after_name + 1, next));
        lemma_descriptor_local(s, kind, after_name + 1, entry.descriptor, 0);
    }
}

/// An import is read back from the bytes that encode it.
pub proof fn lemma_import_round_trip(s: Seq<u8>, pos: int, entry: ImportEntryView)
    requires
        import_wf(entry),
        occurs_at(s, pos, encode_import(entry)),
    ensures
        import_at(s, pos) == Ok::<(ImportEntryView, int), ParseError>(
            (entry, pos + encode_import(entry).len()),
        ),
{
    let module = encode_name(entry.module);
    let name = encode_name(entry.name);
    let enc = encode_import(entry);
    let window = s.subrange(pos, pos + enc.len());
    assert(s.subrange(pos, pos + module.len()) =~= window.subrange(0, module.len() as int));
    assert(enc.subrange(0, module.len() as int) =~= module);
    lemma_name_round_trip(s, pos, entry.module);
    let after_module = pos + module.len();
    let names = (module.len() + name.len()) as int;
    assert(s.subrange(after_module, after_module + name.len()) =~= window.subrange(
        module.len() as int,
        names,
    ));
    assert(enc.subrange(module.len() as int, names) =~= name);
    lemma_name_round_trip(s, after_module, entry.name);
    let after_name = pos + names;
    assert(s[after_name] == window[names]);
    assert(enc[names] == entry.kind.byte_spec());
    let start = after_name + 1;
    assert(s.subrange(start, start + entry.descriptor.len()) =~= window.subrange(
        names + 1,
        enc.len() as int,
    ));
    assert(enc.subrange(names + 1, enc.len() as int) =~= entry.descriptor);
    assert(entry.descriptor.subrange(0, entry.descriptor.len() as int) =~= entry.descriptor);
    lemma_descriptor_local(entry.descriptor, entry.kind, 0, s, start);
}

/// The bytes of import entries behind each other are the bytes of the first
/// entries and then those of the others.
pub proof fn lemma_encode_imports_concat(a: Seq<ImportEntryView>, b: Seq<ImportEntryView>)
    ensures
        encode_import_entries(a + b) == encode_import_entries(a) + encode_import_entries(b),
    decreases b.len(),
{
    if b.len() == 0 {
        assert(a + b =~= a);
        assert(encode_import_entries(a) + encode_import_entries(b) =~= encode_import_entries(a));
    } else {
        assert((a + b).drop_last() =~= a + b.drop_last());
        assert((a + b).last() == b.last());
        lemma_encode_imports_concat(a, b.drop_last());
        assert(encode_import_entries(a + b) =~= encode_import_entries(a) + encode_import_entries(
            b,
        ));
    }
}

/// Imports are read back from the bytes that encode them, whatever stands
/// before them.
pub proof fn lemma_imports_from_round_trip(prefix: Seq<u8>, entries: Seq<ImportEntryView>)
    requires
        imports_wf(entries),
    ensures
        imports_from(
            prefix + encode_import_entries(entries),
            prefix.len() as int,
            entries.len(),
        ) == Ok::<(Seq<ImportEntryView>, int), ParseError>(
            (entries, (prefix.len() + encode_import_entries(entries).len()) as int),
        ),
    decreases entries.len(),
{
    let bytes = prefix + encode_import_entries(entries);
    let pos = prefix.len() as int;
    if entries.len() == 0 {
        assert(entries =~= Seq::<ImportEntryView>::empty());
    } else {
        let first = entries[0];
        let rest = entries.subrange(1, entries.len() as int);
        assert(entries =~= seq![first] + rest);
        lemma_encode_imports_concat(seq![first], rest);
        let one = seq![first];
        assert(one.drop_last() =~= Seq::<ImportEntryView>::empty());
        assert(encode_import_entries(one.drop_last()) =~= Seq::<u8>::empty());
        assert(one.last() == first);
        assert(encode_import_entries(one) =~= encode_import(first));
        let enc = encode_import(first);
        assert(bytes =~= prefix + enc + encode_import_entries(rest));
        assert(bytes.subrange(pos, pos + enc.len()) =~= enc);
        lemma_import_round_trip(bytes, pos, first);
        assert forall|i: int| 0 <= i < rest.len() implies import_wf(#[trigger] rest[i]) by {
            assert(rest[i] == entries[i + 1]);
        }
        lemma_imports_from_round_trip(prefix + enc, rest);
        assert(prefix + enc + encode_import_entries(rest) =~= (prefix + enc)
            + encode_import_entries(rest));
    }
}

/// The entries of an import section are read back from the payload that
/// encodes them.
pub proof fn lemma_imports_round_trip(entries: Seq<ImportEntryView>)
    requires
        entries.len() <= u32::MAX,
        imports_wf(entries),
    ensures
        parse_imports_spec(encode_imports_spec(entries)) == Ok::<
            Seq<ImportEntryView>,
            ParseError,
        >(entries),
{
    let count = leb_encode(entries.len());
    let bytes = encode_imports_spec(entries);
    assert(bytes.subrange(0, count.len() as int) =~= count);
    lemma_u32_round_trip(bytes, 0, entries.len() as u32);
    lemma_imports_from_round_trip(count, entries);
}

/// The imports that were read can be written and read back, and there are
/// as many of them as the section announces.
pub proof fn lemma_imports_from_wf(s: Seq<u8>, pos: int, count: nat)
    ensures
        imports_from(s, pos, count) matches Ok((entries, end)) ==> imports_wf(entries)
            && entries.len() == count,
    decreases count,
{
    if count > 0 {
        lemma_import_at_wf(s, pos);
        if let Ok((entry, next)) = import_at(s, pos) {
            lemma_imports_from_wf(s, next, (count - 1) as nat);
        }
    }
}

/// The names of exports that were read fit in 32 bits, and there are as many
/// exports as the section announces.
pub proof fn lemma_exports_from_wf(s: Seq<u8>, pos: int, count: nat)
    ensures
        exports_from(s, pos, count) matches Ok((entries, end)) ==> export_names_fit(entries)
            && entries.len() == count,
    decreases count,
{
    if count > 0 {
        if let Ok((entry, next)) = export_at(s, pos) {
            lemma_exports_from_wf(s, next, (count - 1) as nat);
        }
    }
}

} // verus!
