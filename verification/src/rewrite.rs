//! Rewriting of index references.
//!
//! When modules are merged, what each of them brings moves to new places in
//! the index spaces of the linked module. This file holds the map from old
//! to new indices for one component and rewrites the instructions and the
//! section entries that refer to functions, tables, memories, globals,
//! types, element segments and data segments. Instructions that refer to
//! none of them are copied; an instruction that is not known is refused.

use crate::catalog::{
    byte_at, error_at, limits_end, one_byte_type_at, read_byte, read_u32, skip_limits,
    skip_one_byte_type, skip_u64, u32_at, u64_end,
};
use crate::codec::append_bytes;
use crate::leb128::{leb_encode, lemma_leb_decode_bounds, write_uleb128};
use crate::module::{ParseError, ParseErrorReason};
use vstd::prelude::*;
use vstd::slice::slice_subrange;

verus! {

/// The index spaces of a module.
#[derive(Clone, Copy, Debug, PartialEq, Eq, Structural)]
pub enum Space {
    Function,
    Table,
    Memory,
    Global,
    Type,
    Element,
    Data,
}

/// Where the items of one index space of one component are found in the
/// linked module.
#[derive(Clone, Debug, PartialEq, Eq)]
pub struct SpaceMap {
    /// The new index of each imported item, in the order of the imports.
    pub imports: Vec<u32>,
    /// The new index of the first item that the component defines.
    pub first_defined: u32,
    /// The number of items that the component defines.
    pub defined: u32,
}

/// The mathematical value of a [`SpaceMap`].
pub struct SpaceMapView {
    pub imports: Seq<u32>,
    pub first_defined: u32,
    pub defined: u32,
}

impl View for SpaceMap {
    type V = SpaceMapView;

    open spec fn view(&self) -> SpaceMapView {
        SpaceMapView {
            imports: self.imports@,
            first_defined: self.first_defined,
            defined: self.defined,
        }
    }
}

/// Where the items of one component are found in the linked module, space by
/// space. Types, element segments and data segments are never imported.
#[derive(Clone, Debug, PartialEq, Eq)]
pub struct IndexMap {
    pub functions: SpaceMap,
    pub tables: SpaceMap,
    pub memories: SpaceMap,
    pub globals: SpaceMap,
    pub types: SpaceMap,
    pub elements: SpaceMap,
    pub data: SpaceMap,
}

/// The mathematical value of an [`IndexMap`].
pub struct IndexMapView {
    pub functions: SpaceMapView,
    pub tables: SpaceMapView,
    pub memories: SpaceMapView,
    pub globals: SpaceMapView,
    pub types: SpaceMapView,
    pub elements: SpaceMapView,
    pub data: SpaceMapView,
}

impl View for IndexMap {
    type V = IndexMapView;

    open spec fn view(&self) -> IndexMapView {
        IndexMapView {
            functions: self.functions@,
            tables: self.tables@,
            memories: self.memories@,
            globals: self.globals@,
            types: self.types@,
            elements: self.elements@,
            data: self.data@,
        }
    }
}

/// The new index of an item of a space: that of the import if the index
/// names one, otherwise the place of the defined item behind the first. An
/// index that names no item of the component has no new index.
pub open spec fn space_target(map: SpaceMapView, index: u32) -> Option<u32> {
    if index < map.imports.len() {
        Some(map.imports[index as int])
    } else if index - map.imports.len() < map.defined && map.first_defined + (index
        - map.imports.len()) <= u32::MAX {
        Some((map.first_defined + (index - map.imports.len())) as u32)
    } else {
        None
    }
}

/// The map of one space.
pub open spec fn space_of(map: IndexMapView, space: Space) -> SpaceMapView {
    match space {
        Space::Function => map.functions,
        Space::Table => map.tables,
        Space::Memory => map.memories,
        Space::Global => map.globals,
        Space::Type => map.types,
        Space::Element => map.elements,
        Space::Data => map.data,
    }
}

/// The new index of an item of the given space.
pub open spec fn target(map: IndexMapView, space: Space, index: u32) -> Option<u32> {
    space_target(space_of(map, space), index)
}

/// The new index of a function.
pub open spec fn function_target(map: IndexMapView, index: u32) -> Option<u32> {
    target(map, Space::Function, index)
}

/// The new index of a type.
pub open spec fn type_target(map: IndexMapView, index: u32) -> Option<u32> {
    target(map, Space::Type, index)
}

impl SpaceMap {
    /// The new index of an item.
    pub fn target(&self, index: u32) -> (r: Option<u32>)
        ensures
            r == space_target(self@, index),
    {
        if (index as usize) < self.imports.len() {
            Some(self.imports[index as usize])
        } else {
            let offset: u64 = index as u64 - self.imports.len() as u64;
            if offset < self.defined as u64 && self.first_defined as u64 + offset
                <= u32::MAX as u64 {
                Some((self.first_defined as u64 + offset) as u32)
            } else {
                None
            }
        }
    }
}

impl IndexMap {
    /// The new index of an item of the given space.
    pub fn target(&self, space: Space, index: u32) -> (r: Option<u32>)
        ensures
            r == target(self@, space, index),
    {
        match space {
            Space::Function => self.functions.target(index),
            Space::Table => self.tables.target(index),
            Space::Memory => self.memories.target(index),
            Space::Global => self.globals.target(index),
            Space::Type => self.types.target(index),
            Space::Element => self.elements.target(index),
            Space::Data => self.data.target(index),
        }
    }

    /// The new index of a function.
    pub fn function(&self, index: u32) -> (r: Option<u32>)
        ensures
            r == function_target(self@, index),
    {
        self.functions.target(index)
    }

    /// The new index of a type.
    pub fn type_index(&self, index: u32) -> (r: Option<u32>)
        ensures
            r == type_target(self@, index),
    {
        self.types.target(index)
    }
}

/// The signed LEB128 encoding of a number that is not negative: groups of
/// seven bits until what is left fits in six, so that the sign bit of the
/// last group is clear.
pub open spec fn sleb_encode(v: nat) -> Seq<u8>
    decreases v,
{
    if v < 64 {
        seq![v as u8]
    } else {
        seq![(v % 128 + 128) as u8] + sleb_encode(v / 128)
    }
}

/// Appends the signed LEB128 encoding of a number that is not negative.
pub fn write_sleb(out: &mut Vec<u8>, value: u32)
    ensures
        final(out)@ == old(out)@ + sleb_encode(value as nat),
{
    let mut rest: u32 = value;
    while rest >= 64
        invariant
            old(out)@ + sleb_encode(value as nat) == out@ + sleb_encode(rest as nat),
        decreases rest,
    {
        let group: u8 = (rest % 128 + 128) as u8;
        proof {
            let tail = sleb_encode((rest / 128) as nat);
            assert(out@ + sleb_encode(rest as nat) =~= out@.push(group) + tail);
        }
        out.push(group);
        rest = rest / 128;
    }
    proof {
        assert(out@ + sleb_encode(rest as nat) =~= out@.push(rest as u8));
    }
    out.push(rest as u8);
}

/// The offset behind the operator that stands at `pos`, as the operator
/// reader of `wasmparser` finds it when it reads `s` from `pos` on with all
/// features enabled; `None` when the reader reports an error.
pub uninterp spec fn operator_end(s: Seq<u8>, pos: int) -> Option<usize>;

/// `wasmparser::OperatorsReader::read` on the bytes from `pos` on. The result
/// is the offset behind the operator that was read, and it depends on the
/// bytes and the offset alone. Nothing is claimed of where the offset lies.
#[verifier::external_body]
fn read_operator_end(bytes: &[u8], pos: usize) -> (r: Option<usize>)
    requires
        pos <= bytes@.len(),
    ensures
        r == operator_end(bytes@, pos as int),
{
    let reader = wasmparser::BinaryReader::new(&bytes[pos..], pos as u64);
    let mut operators = wasmparser::OperatorsReader::new(reader);
    match operators.read() {
        Ok(_) => Some(operators.original_position() as usize),
        Err(_) => None,
    }
}

/// `done` followed by the bytes in `rest`, or the error in `rest`.
pub open spec fn chain(done: Seq<u8>, rest: Result<(Seq<u8>, int), ParseError>) -> Result<
    (Seq<u8>, int),
    ParseError,
> {
    match rest {
        Ok((more, end)) => Ok((done + more, end)),
        Err(e) => Err(e),
    }
}

/// The instructions whose one immediate is a function index: `call`,
/// `return_call` and `ref.func`.
pub open spec fn is_function_op(op: u8) -> bool {
    op == 0x10 || op == 0x12 || op == 0xd2
}

/// The instructions whose immediates are a type index and a table index:
/// `call_indirect` and `return_call_indirect`.
pub open spec fn is_indirect_op(op: u8) -> bool {
    op == 0x11 || op == 0x13
}

/// The instructions that open a block and carry a block type: `block`,
/// `loop` and `if`.
pub open spec fn is_block_op(op: u8) -> bool {
    op == 0x02 || op == 0x03 || op == 0x04
}

/// The instructions that are copied as they are, because they refer to
/// nothing that moves: control without block types, `drop`, `select`, the
/// instructions on locals, constants, numeric instructions and `ref.is_null`.
pub open spec fn is_plain_op(op: u8) -> bool {
    ||| op == 0x00
    ||| op == 0x01
    ||| 0x0b <= op <= 0x0f
    ||| op == 0x1a
    ||| op == 0x1b
    ||| 0x20 <= op <= 0x22
    ||| 0x41 <= op <= 0xc4
    ||| op == 0xd1
}

/// The prefix of the saturating conversions and the bulk instructions.
pub const BULK_PREFIX: u8 = 0xfc;

/// The prefix of the vector instructions.
pub const VECTOR_PREFIX: u8 = 0xfd;

/// The prefix of the atomic instructions.
pub const ATOMIC_PREFIX: u8 = 0xfe;

/// The instruction at `pos`, copied as it is, with the offset behind it.
/// Where the instruction ends is what the operator reader says; an end that
/// is not behind `pos` and inside the buffer is not accepted.
pub open spec fn plain_instruction(s: Seq<u8>, pos: int) -> Result<(Seq<u8>, int), ParseError> {
    match operator_end(s, pos) {
        None => Err(error_at(pos, ParseErrorReason::InvalidEntry)),
        Some(next) => if pos < next <= s.len() {
            Ok((s.subrange(pos, next as int), next as int))
        } else {
            Err(error_at(pos, ParseErrorReason::InvalidEntry))
        },
    }
}

/// The index at `pos`, which names an item of the given space, replaced by
/// its new value, with the offset behind it.
pub open spec fn index_at(s: Seq<u8>, pos: int, space: Space, map: IndexMapView) -> Result<
    (Seq<u8>, int),
    ParseError,
> {
    match u32_at(s, pos) {
        Err(e) => Err(e),
        Ok((index, next)) => match target(map, space, index) {
            None => Err(error_at(pos, ParseErrorReason::OutOfRange)),
            Some(new) => Ok((leb_encode(new as nat), next)),
        },
    }
}

/// Two indices behind each other, each replaced by its new value.
pub open spec fn indices_at(
    s: Seq<u8>,
    pos: int,
    first: Space,
    second: Space,
    map: IndexMapView,
) -> Result<(Seq<u8>, int), ParseError> {
    match index_at(s, pos, first, map) {
        Err(e) => Err(e),
        Ok((bytes, middle)) => chain(bytes, index_at(s, middle, second, map)),
    }
}

/// The memory argument at `pos`, rewritten: the alignment, to which 64 is
/// added when the index of a memory follows, that index, and the offset. The
/// instruction refers to memory 0 when no index follows. The new index is
/// written only when it is not 0.
pub open spec fn memory_argument(s: Seq<u8>, pos: int, map: IndexMapView) -> Result<
    (Seq<u8>, int),
    ParseError,
> {
    match u32_at(s, pos) {
        Err(e) => Err(e),
        Ok((flags, after_flags)) => if flags >= 128 {
            Err(error_at(pos, ParseErrorReason::Unsupported))
        } else {
            match (if flags >= 64 {
                u32_at(s, after_flags)
            } else {
                Ok((0u32, after_flags))
            }) {
                Err(e) => Err(e),
                Ok((memory, after_memory)) => match target(map, Space::Memory, memory) {
                    None => Err(error_at(pos, ParseErrorReason::OutOfRange)),
                    Some(new) => match u64_end(s, after_memory) {
                        Err(e) => Err(e),
                        Ok(end) => Ok(
                            (
                                if new == 0 {
                                    leb_encode((flags % 64) as nat) + s.subrange(after_memory, end)
                                } else {
                                    leb_encode((flags % 64 + 64) as nat) + leb_encode(new as nat)
                                        + s.subrange(after_memory, end)
                                },
                                end,
                            ),
                        ),
                    },
                },
            }
        },
    }
}

/// The block type at `pos`, rewritten, with the offset behind it. A single
/// byte with the sign bit set is the empty type or a value type and is
/// copied, unless it opens a longer reference type. Otherwise the block type
/// is a type index, which is moved.
pub open spec fn block_type(s: Seq<u8>, pos: int, map: IndexMapView) -> Result<
    (Seq<u8>, int),
    ParseError,
> {
    match byte_at(s, pos) {
        Err(e) => Err(e),
        Ok(first) => if 0x40 <= first < 0x80 {
            if first == 0x63 || first == 0x64 {
                Err(error_at(pos, ParseErrorReason::Unsupported))
            } else {
                Ok((seq![first], pos + 1))
            }
        } else {
            match u32_at(s, pos) {
                Err(e) => Err(e),
                Ok((index, next)) => if s[next - 1] >= 0x40 {
                    Err(error_at(pos, ParseErrorReason::Unsupported))
                } else {
                    match type_target(map, index) {
                        None => Err(error_at(pos, ParseErrorReason::OutOfRange)),
                        Some(target) => Ok((sleb_encode(target as nat), next)),
                    }
                },
            }
        },
    }
}

/// What follows the number of a bulk instruction, rewritten. The saturating
/// conversions and the wide arithmetic have no immediates; the others name
/// memories, tables, data segments and element segments.
pub open spec fn bulk_operands(s: Seq<u8>, pos: int, number: u32, map: IndexMapView) -> Result<
    (Seq<u8>, int),
    ParseError,
> {
    if number <= 7 || 19 <= number <= 22 {
        Ok((Seq::empty(), pos))
    } else if number == 8 {
        indices_at(s, pos, Space::Data, Space::Memory, map)
    } else if number == 9 {
        index_at(s, pos, Space::Data, map)
    } else if number == 10 {
        indices_at(s, pos, Space::Memory, Space::Memory, map)
    } else if number == 11 || number == 18 {
        index_at(s, pos, Space::Memory, map)
    } else if number == 12 {
        indices_at(s, pos, Space::Element, Space::Table, map)
    } else if number == 13 {
        index_at(s, pos, Space::Element, map)
    } else if number == 14 {
        indices_at(s, pos, Space::Table, Space::Table, map)
    } else if 15 <= number <= 17 {
        index_at(s, pos, Space::Table, map)
    } else {
        Err(error_at(pos, ParseErrorReason::Unsupported))
    }
}

/// The vector instructions that carry a memory argument: the loads, the
/// store, and the loads and stores of one lane.
pub open spec fn vector_uses_memory(number: u32) -> bool {
    number <= 11 || 84 <= number <= 93
}

/// The vector instructions that carry a lane behind their memory argument.
pub open spec fn vector_has_lane(number: u32) -> bool {
    84 <= number <= 91
}

/// What follows the number of a vector instruction that carries a memory
/// argument, rewritten: the argument, and the lane where there is one.
pub open spec fn vector_operands(s: Seq<u8>, pos: int, number: u32, map: IndexMapView) -> Result<
    (Seq<u8>, int),
    ParseError,
> {
    match memory_argument(s, pos, map) {
        Err(e) => Err(e),
        Ok((argument, end)) => if vector_has_lane(number) {
            match byte_at(s, end) {
                Err(e) => Err(e),
                Ok(lane) => Ok((argument + seq![lane], end + 1)),
            }
        } else {
            Ok((argument, end))
        },
    }
}

/// What follows the number of an atomic instruction other than the fence,
/// rewritten. The instructions below number 0x4f carry a memory argument;
/// those up to 0x57 an ordering and the index of a global; those up to 0x5b
/// an ordering and the index of a table. The others name types in ways that
/// are not handled.
pub open spec fn atomic_operands(s: Seq<u8>, pos: int, number: u32, map: IndexMapView) -> Result<
    (Seq<u8>, int),
    ParseError,
> {
    if number < 0x4f {
        memory_argument(s, pos, map)
    } else if number <= 0x5b {
        match byte_at(s, pos) {
            Err(e) => Err(e),
            Ok(ordering) => chain(
                seq![ordering],
                index_at(
                    s,
                    pos + 1,
                    if number <= 0x57 {
                        Space::Global
                    } else {
                        Space::Table
                    },
                    map,
                ),
            ),
        }
    } else {
        Err(error_at(pos, ParseErrorReason::Unsupported))
    }
}

/// The instruction at `pos` that opens with a prefix, rewritten.
pub open spec fn prefixed(s: Seq<u8>, pos: int, prefix: u8, map: IndexMapView) -> Result<
    (Seq<u8>, int),
    ParseError,
> {
    match u32_at(s, pos + 1) {
        Err(e) => Err(e),
        Ok((number, after)) => if prefix == BULK_PREFIX {
            chain(s.subrange(pos, after), bulk_operands(s, after, number, map))
        } else if prefix == VECTOR_PREFIX {
            if vector_uses_memory(number) {
                chain(s.subrange(pos, after), vector_operands(s, after, number, map))
            } else {
                plain_instruction(s, pos)
            }
        } else {
            if number == 3 {
                plain_instruction(s, pos)
            } else {
                chain(s.subrange(pos, after), atomic_operands(s, after, number, map))
            }
        },
    }
}

/// What follows the opcode of an instruction without prefix that refers to
/// something that moves, rewritten.
pub open spec fn operands(s: Seq<u8>, pos: int, op: u8, map: IndexMapView) -> Result<
    (Seq<u8>, int),
    ParseError,
> {
    if is_function_op(op) {
        index_at(s, pos, Space::Function, map)
    } else if op == 0x23 || op == 0x24 {
        index_at(s, pos, Space::Global, map)
    } else if op == 0x25 || op == 0x26 {
        index_at(s, pos, Space::Table, map)
    } else if is_indirect_op(op) {
        indices_at(s, pos, Space::Type, Space::Table, map)
    } else if 0x28 <= op <= 0x3e {
        memory_argument(s, pos, map)
    } else if op == 0x3f || op == 0x40 {
        index_at(s, pos, Space::Memory, map)
    } else {
        block_type(s, pos, map)
    }
}

/// The instructions without prefix that refer to something that moves.
pub open spec fn has_operands(op: u8) -> bool {
    is_function_op(op) || is_indirect_op(op) || is_block_op(op) || 0x23 <= op <= 0x26 || 0x28
        <= op <= 0x40
}

/// The instruction at `pos`, rewritten, with the offset behind it.
///
/// Every index of a function, table, memory, global, type, element segment
/// or data segment is replaced by its new value. `else` and the plain
/// instructions are copied, and so are the vector instructions without a
/// memory argument and the atomic fence. `ref.null` is copied when its heap
/// type is an abstract one. Every other instruction is refused.
pub open spec fn instruction(s: Seq<u8>, pos: int, map: IndexMapView) -> Result<
    (Seq<u8>, int),
    ParseError,
> {
    match byte_at(s, pos) {
        Err(e) => Err(e),
        Ok(op) => if op == 0x05 {
            Ok((seq![op], pos + 1))
        } else if has_operands(op) {
            chain(seq![op], operands(s, pos + 1, op, map))
        } else if op == 0xd0 {
            match byte_at(s, pos + 1) {
                Err(e) => Err(e),
                Ok(heap) => if 0x40 <= heap < 0x80 {
                    Ok((seq![op, heap], pos + 2))
                } else {
                    Err(error_at(pos + 1, ParseErrorReason::Unsupported))
                },
            }
        } else if BULK_PREFIX <= op <= ATOMIC_PREFIX {
            prefixed(s, pos, op, map)
        } else if is_plain_op(op) {
            plain_instruction(s, pos)
        } else {
            Err(error_at(pos, ParseErrorReason::Unsupported))
        },
    }
}

/// Where an index ends lies behind its start, inside the buffer.
pub proof fn lemma_index_bounds(s: Seq<u8>, pos: int, space: Space, map: IndexMapView)
    ensures
        index_at(s, pos, space, map) matches Ok((bytes, next)) ==> 0 <= pos < next <= s.len(),
{
    lemma_leb_decode_bounds(s, pos);
}

/// Where two indices end lies behind their start, inside the buffer.
pub proof fn lemma_indices_bounds(
    s: Seq<u8>,
    pos: int,
    first: Space,
    second: Space,
    map: IndexMapView,
)
    ensures
        indices_at(s, pos, first, second, map) matches Ok((bytes, next)) ==> 0 <= pos < next
            <= s.len(),
{
    lemma_index_bounds(s, pos, first, map);
    if let Ok((bytes, middle)) = index_at(s, pos, first, map) {
        lemma_index_bounds(s, middle, second, map);
    }
}

/// Where a memory argument ends lies behind its start, inside the buffer.
pub proof fn lemma_memory_argument_bounds(s: Seq<u8>, pos: int, map: IndexMapView)
    ensures
        memory_argument(s, pos, map) matches Ok((bytes, next)) ==> 0 <= pos < next <= s.len(),
{
    lemma_leb_decode_bounds(s, pos);
    if let Ok((flags, after_flags)) = u32_at(s, pos) {
        lemma_leb_decode_bounds(s, after_flags);
        if flags >= 64 {
            if let Ok((memory, after_memory)) = u32_at(s, after_flags) {
                lemma_leb_decode_bounds(s, after_memory);
            }
        }
    }
}

/// Where operands end lies at or behind their start, inside the buffer.
pub proof fn lemma_operands_bounds(s: Seq<u8>, pos: int, op: u8, map: IndexMapView)
    ensures
        operands(s, pos, op, map) matches Ok((bytes, next)) ==> 0 <= pos < next <= s.len(),
{
    lemma_index_bounds(s, pos, Space::Function, map);
    lemma_index_bounds(s, pos, Space::Global, map);
    lemma_index_bounds(s, pos, Space::Table, map);
    lemma_index_bounds(s, pos, Space::Memory, map);
    lemma_indices_bounds(s, pos, Space::Type, Space::Table, map);
    lemma_memory_argument_bounds(s, pos, map);
    lemma_leb_decode_bounds(s, pos);
}

/// Where a prefixed instruction ends lies behind its start, inside the
/// buffer.
pub proof fn lemma_prefixed_bounds(s: Seq<u8>, pos: int, prefix: u8, map: IndexMapView)
    requires
        0 <= pos < s.len(),
    ensures
        prefixed(s, pos, prefix, map) matches Ok((bytes, next)) ==> pos < next <= s.len(),
{
    lemma_leb_decode_bounds(s, pos + 1);
    if let Ok((number, after)) = u32_at(s, pos + 1) {
        lemma_index_bounds(s, after, Space::Data, map);
        lemma_index_bounds(s, after, Space::Memory, map);
        lemma_index_bounds(s, after, Space::Element, map);
        lemma_index_bounds(s, after, Space::Table, map);
        lemma_index_bounds(s, after + 1, Space::Table, map);
        lemma_index_bounds(s, after + 1, Space::Global, map);
        lemma_indices_bounds(s, after, Space::Data, Space::Memory, map);
        lemma_indices_bounds(s, after, Space::Memory, Space::Memory, map);
        lemma_indices_bounds(s, after, Space::Element, Space::Table, map);
        lemma_indices_bounds(s, after, Space::Table, Space::Table, map);
        lemma_memory_argument_bounds(s, after, map);
    }
}

/// An instruction that was rewritten ends behind the place where it starts,
/// inside the buffer.
pub proof fn lemma_instruction_advances(s: Seq<u8>, pos: int, map: IndexMapView)
    ensures
        instruction(s, pos, map) matches Ok((bytes, next)) ==> 0 <= pos < next <= s.len(),
{
    if 0 <= pos < s.len() {
        lemma_operands_bounds(s, pos + 1, s[pos], map);
        lemma_prefixed_bounds(s, pos, s[pos], map);
    }
}

fn is_plain(op: u8) -> (r: bool)
    ensures
        r == is_plain_op(op),
{
    op == 0x00 || op == 0x01 || (0x0b <= op && op <= 0x0f) || op == 0x1a || op == 0x1b || (0x20
        <= op && op <= 0x22) || (0x41 <= op && op <= 0xc4) || op == 0xd1
}

fn fail<T>(offset: usize, reason: ParseErrorReason) -> (r: Result<T, ParseError>)
    ensures
        r == Err::<T, ParseError>(error_at(offset as int, reason)),
{
    Err(ParseError { offset, reason })
}

/// Rewrites the index at `pos` and appends it to `out`.
pub fn rewrite_index(out: &mut Vec<u8>, bytes: &[u8], pos: usize, space: Space, map: &IndexMap)
    -> (r: Result<usize, ParseError>)
    ensures
        match r {
            Ok(next) => index_at(bytes@, pos as int, space, map@) matches Ok((piece, end)) && end
                == next && final(out)@ == old(out)@ + piece && pos < next <= bytes@.len(),
            Err(e) => index_at(bytes@, pos as int, space, map@) == Err::<
                (Seq<u8>, int),
                ParseError,
            >(e),
        },
{
    let (index, next) = match read_u32(bytes, pos) {
        Err(e) => {
            return Err(e);
        },
        Ok(pair) => pair,
    };
    match map.target(space, index) {
        None => fail(pos, ParseErrorReason::OutOfRange),
        Some(new) => {
            write_uleb128(out, new as u64);
            Ok(next)
        },
    }
}

/// Rewrites two indices behind each other and appends them to `out`.
fn rewrite_indices(
    out: &mut Vec<u8>,
    bytes: &[u8],
    pos: usize,
    first: Space,
    second: Space,
    map: &IndexMap,
) -> (r: Result<usize, ParseError>)
    ensures
        match r {
            Ok(next) => indices_at(bytes@, pos as int, first, second, map@) matches Ok(
                (piece, end),
            ) && end == next && final(out)@ == old(out)@ + piece && pos < next <= bytes@.len(),
            Err(e) => indices_at(bytes@, pos as int, first, second, map@) == Err::<
                (Seq<u8>, int),
                ParseError,
            >(e),
        },
{
    let middle = match rewrite_index(out, bytes, pos, first, map) {
        Err(e) => {
            return Err(e);
        },
        Ok(p) => p,
    };
    let ghost head = index_at(bytes@, pos as int, first, map@)->Ok_0.0;
    match rewrite_index(out, bytes, middle, second, map) {
        Err(e) => Err(e),
        Ok(next) => {
            proof {
                let tail = index_at(bytes@, middle as int, second, map@)->Ok_0.0;
                assert(out@ =~= old(out)@ + (head + tail));
            }
            Ok(next)
        },
    }
}

/// Rewrites the memory argument at `pos` and appends it to `out`.
fn rewrite_memory_argument(out: &mut Vec<u8>, bytes: &[u8], pos: usize, map: &IndexMap) -> (r:
    Result<usize, ParseError>)
    ensures
        match r {
            Ok(next) => memory_argument(bytes@, pos as int, map@) matches Ok((piece, end)) && end
                == next && final(out)@ == old(out)@ + piece && pos < next <= bytes@.len(),
            Err(e) => memory_argument(bytes@, pos as int, map@) == Err::<
                (Seq<u8>, int),
                ParseError,
            >(e),
        },
{
    let (flags, after_flags) = match read_u32(bytes, pos) {
        Err(e) => {
            return Err(e);
        },
        Ok(pair) => pair,
    };
    if flags >= 128 {
        return fail(pos, ParseErrorReason::Unsupported);
    }
    let (memory, after_memory) = if flags >= 64 {
        match read_u32(bytes, after_flags) {
            Err(e) => {
                return Err(e);
            },
            Ok(pair) => pair,
        }
    } else {
        (0, after_flags)
    };
    let new = match map.target(Space::Memory, memory) {
        None => {
            return fail(pos, ParseErrorReason::OutOfRange);
        },
        Some(new) => new,
    };
    let end = match skip_u64(bytes, after_memory) {
        Err(e) => {
            return Err(e);
        },
        Ok(p) => p,
    };
    if new == 0 {
        write_uleb128(out, (flags % 64) as u64);
    } else {
        write_uleb128(out, (flags % 64 + 64) as u64);
        write_uleb128(out, new as u64);
    }
    append_bytes(out, slice_subrange(bytes, after_memory, end));
    proof {
        let piece = memory_argument(bytes@, pos as int, map@)->Ok_0.0;
        assert(out@ =~= old(out)@ + piece);
    }
    Ok(end)
}

/// Rewrites the block type at `pos` and appends it to `out`.
fn rewrite_block_type(out: &mut Vec<u8>, bytes: &[u8], pos: usize, map: &IndexMap) -> (r: Result<
    usize,
    ParseError,
>)
    ensures
        match r {
            Ok(next) => block_type(bytes@, pos as int, map@) matches Ok((piece, end)) && end
                == next && final(out)@ == old(out)@ + piece && pos < next <= bytes@.len(),
            Err(e) => block_type(bytes@, pos as int, map@) == Err::<(Seq<u8>, int), ParseError>(e),
        },
{
    let first = match read_byte(bytes, pos) {
        Err(e) => {
            return Err(e);
        },
        Ok(b) => b,
    };
    if 0x40 <= first && first < 0x80 {
        if first == 0x63 || first == 0x64 {
            return fail(pos, ParseErrorReason::Unsupported);
        }
        out.push(first);
        proof {
            assert(out@ =~= old(out)@ + seq![first]);
        }
        return Ok(pos + 1);
    }
    let (index, next) = match read_u32(bytes, pos) {
        Err(e) => {
            return Err(e);
        },
        Ok(pair) => pair,
    };
    if bytes[next - 1] >= 0x40 {
        return fail(pos, ParseErrorReason::Unsupported);
    }
    match map.type_index(index) {
        None => fail(pos, ParseErrorReason::OutOfRange),
        Some(target) => {
            write_sleb(out, target);
            Ok(next)
        },
    }
}

/// Rewrites what follows the opcode of an instruction without prefix.
fn rewrite_operands(out: &mut Vec<u8>, bytes: &[u8], pos: usize, op: u8, map: &IndexMap) -> (r:
    Result<usize, ParseError>)
    requires
        has_operands(op),
    ensures
        match r {
            Ok(next) => operands(bytes@, pos as int, op, map@) matches Ok((piece, end)) && end
                == next && final(out)@ == old(out)@ + piece && pos < next <= bytes@.len(),
            Err(e) => operands(bytes@, pos as int, op, map@) == Err::<(Seq<u8>, int), ParseError>(
                e,
            ),
        },
{
    if op == 0x10 || op == 0x12 || op == 0xd2 {
        rewrite_index(out, bytes, pos, Space::Function, map)
    } else if op == 0x23 || op == 0x24 {
        rewrite_index(out, bytes, pos, Space::Global, map)
    } else if op == 0x25 || op == 0x26 {
        rewrite_index(out, bytes, pos, Space::Table, map)
    } else if op == 0x11 || op == 0x13 {
        rewrite_indices(out, bytes, pos, Space::Type, Space::Table, map)
    } else if 0x28 <= op && op <= 0x3e {
        rewrite_memory_argument(out, bytes, pos, map)
    } else if op == 0x3f || op == 0x40 {
        rewrite_index(out, bytes, pos, Space::Memory, map)
    } else {
        rewrite_block_type(out, bytes, pos, map)
    }
}

/// Rewrites what follows the number of a bulk instruction.
fn rewrite_bulk_operands(
    out: &mut Vec<u8>,
    bytes: &[u8],
    pos: usize,
    number: u32,
    map: &IndexMap,
) -> (r: Result<usize, ParseError>)
    requires
        pos <= bytes@.len(),
    ensures
        match r {
            Ok(next) => bulk_operands(bytes@, pos as int, number, map@) matches Ok((piece, end))
                && end == next && final(out)@ == old(out)@ + piece && pos <= next <= bytes@.len(),
            Err(e) => bulk_operands(bytes@, pos as int, number, map@) == Err::<
                (Seq<u8>, int),
                ParseError,
            >(e),
        },
{
    if number <= 7 || (19 <= number && number <= 22) {
        proof {
            assert(out@ =~= old(out)@ + Seq::<u8>::empty());
        }
        Ok(pos)
    } else if number == 8 {
        rewrite_indices(out, bytes, pos, Space::Data, Space::Memory, map)
    } else if number == 9 {
        rewrite_index(out, bytes, pos, Space::Data, map)
    } else if number == 10 {
        rewrite_indices(out, bytes, pos, Space::Memory, Space::Memory, map)
    } else if number == 11 || number == 18 {
        rewrite_index(out, bytes, pos, Space::Memory, map)
    } else if number == 12 {
        rewrite_indices(out, bytes, pos, Space::Element, Space::Table, map)
    } else if number == 13 {
        rewrite_index(out, bytes, pos, Space::Element, map)
    } else if number == 14 {
        rewrite_indices(out, bytes, pos, Space::Table, Space::Table, map)
    } else if 15 <= number && number <= 17 {
        rewrite_index(out, bytes, pos, Space::Table, map)
    } else {
        fail(pos, ParseErrorReason::Unsupported)
    }
}

/// Rewrites what follows the number of a vector instruction that carries a
/// memory argument.
fn rewrite_vector_operands(
    out: &mut Vec<u8>,
    bytes: &[u8],
    pos: usize,
    number: u32,
    map: &IndexMap,
) -> (r: Result<usize, ParseError>)
    ensures
        match r {
            Ok(next) => vector_operands(bytes@, pos as int, number, map@) matches Ok(
                (piece, end),
            ) && end == next && final(out)@ == old(out)@ + piece && pos < next <= bytes@.len(),
            Err(e) => vector_operands(bytes@, pos as int, number, map@) == Err::<
                (Seq<u8>, int),
                ParseError,
            >(e),
        },
{
    let end = match rewrite_memory_argument(out, bytes, pos, map) {
        Err(e) => {
            return Err(e);
        },
        Ok(p) => p,
    };
    let ghost argument = memory_argument(bytes@, pos as int, map@)->Ok_0.0;
    if 84 <= number && number <= 91 {
        match read_byte(bytes, end) {
            Err(e) => Err(e),
            Ok(lane) => {
                out.push(lane);
                proof {
                    assert(out@ =~= old(out)@ + (argument + seq![lane]));
                }
                Ok(end + 1)
            },
        }
    } else {
        Ok(end)
    }
}

/// Rewrites what follows the number of an atomic instruction.
fn rewrite_atomic_operands(
    out: &mut Vec<u8>,
    bytes: &[u8],
    pos: usize,
    number: u32,
    map: &IndexMap,
) -> (r: Result<usize, ParseError>)
    ensures
        match r {
            Ok(next) => atomic_operands(bytes@, pos as int, number, map@) matches Ok(
                (piece, end),
            ) && end == next && final(out)@ == old(out)@ + piece && pos < next <= bytes@.len(),
            Err(e) => atomic_operands(bytes@, pos as int, number, map@) == Err::<
                (Seq<u8>, int),
                ParseError,
            >(e),
        },
{
    if number < 0x4f {
        rewrite_memory_argument(out, bytes, pos, map)
    } else if number <= 0x5b {
        let ordering = match read_byte(bytes, pos) {
            Err(e) => {
                return Err(e);
            },
            Ok(b) => b,
        };
        out.push(ordering);
        let space = if number <= 0x57 {
            Space::Global
        } else {
            Space::Table
        };
        match rewrite_index(out, bytes, pos + 1, space, map) {
            Err(e) => Err(e),
            Ok(next) => {
                proof {
                    let tail = index_at(bytes@, pos + 1, space, map@)->Ok_0.0;
                    assert(out@ =~= old(out)@ + (seq![ordering] + tail));
                }
                Ok(next)
            },
        }
    } else {
        fail(pos, ParseErrorReason::Unsupported)
    }
}

/// Copies the instruction at `pos` and appends it to `out`.
fn copy_instruction(out: &mut Vec<u8>, bytes: &[u8], pos: usize) -> (r: Result<usize, ParseError>)
    requires
        pos <= bytes@.len(),
    ensures
        match r {
            Ok(next) => plain_instruction(bytes@, pos as int) matches Ok((piece, end)) && end
                == next && final(out)@ == old(out)@ + piece && pos < next <= bytes@.len(),
            Err(e) => plain_instruction(bytes@, pos as int) == Err::<(Seq<u8>, int), ParseError>(e),
        },
{
    match read_operator_end(bytes, pos) {
        None => fail(pos, ParseErrorReason::InvalidEntry),
        Some(next) => {
            if pos < next && next <= bytes.len() {
                append_bytes(out, slice_subrange(bytes, pos, next));
                Ok(next)
            } else {
                fail(pos, ParseErrorReason::InvalidEntry)
            }
        },
    }
}

/// Rewrites the instruction at `pos` that opens with a prefix.
fn rewrite_prefixed(out: &mut Vec<u8>, bytes: &[u8], pos: usize, prefix: u8, map: &IndexMap) -> (r:
    Result<usize, ParseError>)
    requires
        pos < bytes@.len() <= usize::MAX,
        BULK_PREFIX <= prefix <= ATOMIC_PREFIX,
    ensures
        match r {
            Ok(next) => prefixed(bytes@, pos as int, prefix, map@) matches Ok((piece, end)) && end
                == next && final(out)@ == old(out)@ + piece && pos < next <= bytes@.len(),
            Err(e) => prefixed(bytes@, pos as int, prefix, map@) == Err::<
                (Seq<u8>, int),
                ParseError,
            >(e),
        },
{
    let (number, after) = match read_u32(bytes, pos + 1) {
        Err(e) => {
            return Err(e);
        },
        Ok(pair) => pair,
    };
    let copied = (prefix == VECTOR_PREFIX && !(number <= 11 || (84 <= number && number <= 93)))
        || (prefix == ATOMIC_PREFIX && number == 3);
    if copied {
        return copy_instruction(out, bytes, pos);
    }
    append_bytes(out, slice_subrange(bytes, pos, after));
    let ghost head = bytes@.subrange(pos as int, after as int);
    let rest = if prefix == BULK_PREFIX {
        rewrite_bulk_operands(out, bytes, after, number, map)
    } else if prefix == VECTOR_PREFIX {
        rewrite_vector_operands(out, bytes, after, number, map)
    } else {
        rewrite_atomic_operands(out, bytes, after, number, map)
    };
    match rest {
        Err(e) => Err(e),
        Ok(next) => {
            proof {
                let tail = if prefix == BULK_PREFIX {
                    bulk_operands(bytes@, after as int, number, map@)->Ok_0.0
                } else if prefix == VECTOR_PREFIX {
                    vector_operands(bytes@, after as int, number, map@)->Ok_0.0
                } else {
                    atomic_operands(bytes@, after as int, number, map@)->Ok_0.0
                };
                assert(out@ =~= old(out)@ + (head + tail));
            }
            Ok(next)
        },
    }
}

/// Rewrites the instruction at `pos` and appends it to `out`.
pub fn rewrite_instruction(out: &mut Vec<u8>, bytes: &[u8], pos: usize, map: &IndexMap) -> (r:
    Result<usize, ParseError>)
    ensures
        match r {
            Ok(next) => instruction(bytes@, pos as int, map@) matches Ok((piece, end)) && end
                == next && final(out)@ == old(out)@ + piece && pos < next <= bytes@.len(),
            Err(e) => instruction(bytes@, pos as int, map@) == Err::<(Seq<u8>, int), ParseError>(e),
        },
{
    let op = match read_byte(bytes, pos) {
        Err(e) => {
            return Err(e);
        },
        Ok(b) => b,
    };
    let moving = op == 0x10 || op == 0x12 || op == 0xd2 || op == 0x11 || op == 0x13 || op == 0x02
        || op == 0x03 || op == 0x04 || (0x23 <= op && op <= 0x26) || (0x28 <= op && op <= 0x40);
    if op == 0x05 {
        out.push(op);
        proof {
            assert(out@ =~= old(out)@ + seq![op]);
        }
        Ok(pos + 1)
    } else if moving {
        out.push(op);
        match rewrite_operands(out, bytes, pos + 1, op, map) {
            Err(e) => Err(e),
            Ok(next) => {
                proof {
                    let tail = operands(bytes@, pos + 1, op, map@)->Ok_0.0;
                    assert(out@ =~= old(out)@ + (seq![op] + tail));
                }
                Ok(next)
            },
        }
    } else if op == 0xd0 {
        let heap = match read_byte(bytes, pos + 1) {
            Err(e) => {
                return Err(e);
            },
            Ok(b) => b,
        };
        if 0x40 <= heap && heap < 0x80 {
            out.push(op);
            out.push(heap);
            proof {
                assert(out@ =~= old(out)@ + seq![op, heap]);
            }
            Ok(pos + 2)
        } else {
            fail(pos + 1, ParseErrorReason::Unsupported)
        }
    } else if BULK_PREFIX <= op && op <= ATOMIC_PREFIX {
        rewrite_prefixed(out, bytes, pos, op, map)
    } else if is_plain(op) {
        copy_instruction(out, bytes, pos)
    } else {
        fail(pos, ParseErrorReason::Unsupported)
    }
}

/// The instructions from `pos` to the end of the buffer, rewritten.
pub open spec fn instructions(s: Seq<u8>, pos: int, map: IndexMapView) -> Result<
    (Seq<u8>, int),
    ParseError,
>
    decreases s.len() - pos,
{
    if pos < 0 || pos >= s.len() {
        Ok((Seq::empty(), pos))
    } else {
        match instruction(s, pos, map) {
            Err(e) => Err(e),
            Ok((piece, next)) => {
                proof {
                    lemma_instruction_advances(s, pos, map);
                }
                chain(piece, instructions(s, next, map))
            },
        }
    }
}

/// The nesting depth behind an instruction with the given opcode.
pub open spec fn depth_after(op: u8, depth: nat) -> nat {
    if is_block_op(op) {
        depth + 1
    } else if op == 0x0b && depth > 0 {
        (depth - 1) as nat
    } else {
        depth
    }
}

/// The expression that starts at `pos` inside `depth` open blocks,
/// rewritten, with the offset behind the `end` that closes it.
pub open spec fn expression(s: Seq<u8>, pos: int, depth: nat, map: IndexMapView) -> Result<
    (Seq<u8>, int),
    ParseError,
>
    decreases s.len() - pos,
{
    if pos < 0 || pos >= s.len() {
        Err(error_at(pos, ParseErrorReason::UnexpectedEnd))
    } else {
        match instruction(s, pos, map) {
            Err(e) => Err(e),
            Ok((piece, next)) => {
                proof {
                    lemma_instruction_advances(s, pos, map);
                }
                if s[pos] == 0x0b && depth == 0 {
                    Ok((piece, next))
                } else {
                    chain(piece, expression(s, next, depth_after(s[pos], depth), map))
                }
            },
        }
    }
}

/// The offset behind `count` types of one byte each.
pub open spec fn one_byte_types(s: Seq<u8>, pos: int, count: nat) -> Result<int, ParseError>
    decreases count,
{
    if count == 0 {
        Ok(pos)
    } else {
        match one_byte_type_at(s, pos) {
            Err(e) => Err(e),
            Ok(next) => one_byte_types(s, next, (count - 1) as nat),
        }
    }
}

/// The offset behind `count` groups of locals: a number and a type each.
pub open spec fn local_groups(s: Seq<u8>, pos: int, count: nat) -> Result<int, ParseError>
    decreases count,
{
    if count == 0 {
        Ok(pos)
    } else {
        match u32_at(s, pos) {
            Err(e) => Err(e),
            Ok((number, after)) => match one_byte_type_at(s, after) {
                Err(e) => Err(e),
                Ok(next) => local_groups(s, next, (count - 1) as nat),
            },
        }
    }
}

/// `count` function indices from `pos` on, each replaced by its new value.
pub open spec fn function_indices(s: Seq<u8>, pos: int, count: nat, map: IndexMapView) -> Result<
    (Seq<u8>, int),
    ParseError,
>
    decreases count,
{
    if count == 0 {
        Ok((Seq::empty(), pos))
    } else {
        match u32_at(s, pos) {
            Err(e) => Err(e),
            Ok((index, next)) => match function_target(map, index) {
                None => Err(error_at(pos, ParseErrorReason::OutOfRange)),
                Some(target) => chain(
                    leb_encode(target as nat),
                    function_indices(s, next, (count - 1) as nat, map),
                ),
            },
        }
    }
}

/// `count` expressions from `pos` on, rewritten.
pub open spec fn expressions(s: Seq<u8>, pos: int, count: nat, map: IndexMapView) -> Result<
    (Seq<u8>, int),
    ParseError,
>
    decreases count,
{
    if count == 0 {
        Ok((Seq::empty(), pos))
    } else {
        match expression(s, pos, 0, map) {
            Err(e) => Err(e),
            Ok((piece, next)) => chain(piece, expressions(s, next, (count - 1) as nat, map)),
        }
    }
}

/// Rewrites the instructions from `pos` to the end of the buffer.
pub fn rewrite_instructions(out: &mut Vec<u8>, bytes: &[u8], pos: usize, map: &IndexMap) -> (r:
    Result<(), ParseError>)
    requires
        pos <= bytes@.len(),
    ensures
        match r {
            Ok(()) => instructions(bytes@, pos as int, map@) matches Ok((piece, end))
                && final(out)@ == old(out)@ + piece,
            Err(e) => instructions(bytes@, pos as int, map@) == Err::<(Seq<u8>, int), ParseError>(
                e,
            ),
        },
{
    let mut at: usize = pos;
    let ghost mut done: Seq<u8> = Seq::empty();
    proof {
        assert(out@ =~= old(out)@ + done);
        match instructions(bytes@, pos as int, map@) {
            Ok((piece, end)) => {
                assert(done + piece =~= piece);
            },
            Err(_) => {},
        }
    }
    while at < bytes.len()
        invariant
            pos <= at <= bytes@.len(),
            out@ == old(out)@ + done,
            instructions(bytes@, pos as int, map@) == chain(
                done,
                instructions(bytes@, at as int, map@),
            ),
        decreases bytes@.len() - at,
    {
        match rewrite_instruction(out, bytes, at, map) {
            Err(e) => {
                return Err(e);
            },
            Ok(next) => {
                proof {
                    let piece = instruction(bytes@, at as int, map@)->Ok_0.0;
                    match instructions(bytes@, next as int, map@) {
                        Ok((more, end)) => {
                            assert(done + (piece + more) =~= (done + piece) + more);
                        },
                        Err(_) => {},
                    }
                    assert(out@ =~= old(out)@ + (done + piece));
                    done = done + piece;
                }
                at = next;
            },
        }
    }
    proof {
        assert(done + Seq::<u8>::empty() =~= done);
    }
    Ok(())
}

/// Rewrites the expression at `pos`, up to the `end` that closes it.
pub fn rewrite_expression(out: &mut Vec<u8>, bytes: &[u8], pos: usize, map: &IndexMap) -> (r:
    Result<usize, ParseError>)
    requires
        pos <= bytes@.len(),
    ensures
        match r {
            Ok(next) => expression(bytes@, pos as int, 0, map@) matches Ok((piece, end)) && end
                == next && final(out)@ == old(out)@ + piece && pos < next <= bytes@.len(),
            Err(e) => expression(bytes@, pos as int, 0, map@) == Err::<(Seq<u8>, int), ParseError>(
                e,
            ),
        },
{
    let mut at: usize = pos;
    let mut depth: usize = 0;
    let ghost mut done: Seq<u8> = Seq::empty();
    proof {
        assert(out@ =~= old(out)@ + done);
        match expression(bytes@, pos as int, 0, map@) {
            Ok((piece, end)) => {
                assert(done + piece =~= piece);
            },
            Err(_) => {},
        }
    }
    while at < bytes.len()
        invariant
            pos <= at <= bytes@.len(),
            depth <= at - pos,
            out@ == old(out)@ + done,
            expression(bytes@, pos as int, 0, map@) == chain(
                done,
                expression(bytes@, at as int, depth as nat, map@),
            ),
        decreases bytes@.len() - at,
    {
        let op = bytes[at];
        match rewrite_instruction(out, bytes, at, map) {
            Err(e) => {
                return Err(e);
            },
            Ok(next) => {
                let ghost piece = instruction(bytes@, at as int, map@)->Ok_0.0;
                proof {
                    assert(out@ =~= old(out)@ + (done + piece));
                }
                if op == 0x0b && depth == 0 {
                    return Ok(next);
                }
                proof {
                    match expression(bytes@, next as int, depth_after(op, depth as nat), map@) {
                        Ok((more, end)) => {
                            assert(done + (piece + more) =~= (done + piece) + more);
                        },
                        Err(_) => {},
                    }
                    done = done + piece;
                }
                if op == 0x02 || op == 0x03 || op == 0x04 {
                    depth = depth + 1;
                } else if op == 0x0b {
                    depth = depth - 1;
                }
                at = next;
            },
        }
    }
    fail(at, ParseErrorReason::UnexpectedEnd)
}

/// Skips `count` types of one byte each.
pub fn skip_one_byte_types(bytes: &[u8], pos: usize, count: u32) -> (r: Result<usize, ParseError>)
    requires
        pos <= bytes@.len(),
    ensures
        match r {
            Ok(next) => one_byte_types(bytes@, pos as int, count as nat) == Ok::<int, ParseError>(
                next as int,
            ) && pos <= next <= bytes@.len(),
            Err(e) => one_byte_types(bytes@, pos as int, count as nat) == Err::<int, ParseError>(e),
        },
{
    let mut at: usize = pos;
    let mut left: u32 = count;
    while left > 0
        invariant
            pos <= at <= bytes@.len(),
            one_byte_types(bytes@, pos as int, count as nat) == one_byte_types(
                bytes@,
                at as int,
                left as nat,
            ),
        decreases left,
    {
        match skip_one_byte_type(bytes, at) {
            Err(e) => {
                return Err(e);
            },
            Ok(next) => {
                at = next;
            },
        }
        left = left - 1;
    }
    Ok(at)
}

/// Skips `count` groups of locals.
pub fn skip_local_groups(bytes: &[u8], pos: usize, count: u32) -> (r: Result<usize, ParseError>)
    requires
        pos <= bytes@.len(),
    ensures
        match r {
            Ok(next) => local_groups(bytes@, pos as int, count as nat) == Ok::<int, ParseError>(
                next as int,
            ) && pos <= next <= bytes@.len(),
            Err(e) => local_groups(bytes@, pos as int, count as nat) == Err::<int, ParseError>(e),
        },
{
    let mut at: usize = pos;
    let mut left: u32 = count;
    while left > 0
        invariant
            pos <= at <= bytes@.len(),
            local_groups(bytes@, pos as int, count as nat) == local_groups(
                bytes@,
                at as int,
                left as nat,
            ),
        decreases left,
    {
        let after = match read_u32(bytes, at) {
            Err(e) => {
                return Err(e);
            },
            Ok((number, after)) => after,
        };
        match skip_one_byte_type(bytes, after) {
            Err(e) => {
                return Err(e);
            },
            Ok(next) => {
                at = next;
            },
        }
        left = left - 1;
    }
    Ok(at)
}

/// Rewrites `count` function indices from `pos` on.
pub fn rewrite_function_indices(
    out: &mut Vec<u8>,
    bytes: &[u8],
    pos: usize,
    count: u32,
    map: &IndexMap,
) -> (r: Result<usize, ParseError>)
    requires
        pos <= bytes@.len(),
    ensures
        match r {
            Ok(next) => function_indices(bytes@, pos as int, count as nat, map@) matches Ok(
                (piece, end),
            ) && end == next && final(out)@ == old(out)@ + piece && pos <= next <= bytes@.len(),
            Err(e) => function_indices(bytes@, pos as int, count as nat, map@) == Err::<
                (Seq<u8>, int),
                ParseError,
            >(e),
        },
{
    let mut at: usize = pos;
    let mut left: u32 = count;
    let ghost mut done: Seq<u8> = Seq::empty();
    proof {
        assert(out@ =~= old(out)@ + done);
        match function_indices(bytes@, pos as int, count as nat, map@) {
            Ok((piece, end)) => {
                assert(done + piece =~= piece);
            },
            Err(_) => {},
        }
    }
    while left > 0
        invariant
            pos <= at <= bytes@.len(),
            out@ == old(out)@ + done,
            function_indices(bytes@, pos as int, count as nat, map@) == chain(
                done,
                function_indices(bytes@, at as int, left as nat, map@),
            ),
        decreases left,
    {
        let (index, next) = match read_u32(bytes, at) {
            Err(e) => {
                return Err(e);
            },
            Ok(pair) => pair,
        };
        match map.function(index) {
            None => {
                return fail(at, ParseErrorReason::OutOfRange);
            },
            Some(target) => {
                write_uleb128(out, target as u64);
                proof {
                    let piece = leb_encode(target as nat);
                    match function_indices(bytes@, next as int, (left - 1) as nat, map@) {
                        Ok((more, end)) => {
                            assert(done + (piece + more) =~= (done + piece) + more);
                        },
                        Err(_) => {},
                    }
                    assert(out@ =~= old(out)@ + (done + piece));
                    done = done + piece;
                }
            },
        }
        at = next;
        left = left - 1;
    }
    proof {
        assert(done + Seq::<u8>::empty() =~= done);
    }
    Ok(at)
}

/// Rewrites `count` expressions from `pos` on.
pub fn rewrite_expressions(
    out: &mut Vec<u8>,
    bytes: &[u8],
    pos: usize,
    count: u32,
    map: &IndexMap,
) -> (r: Result<usize, ParseError>)
    requires
        pos <= bytes@.len(),
    ensures
        match r {
            Ok(next) => expressions(bytes@, pos as int, count as nat, map@) matches Ok(
                (piece, end),
            ) && end == next && final(out)@ == old(out)@ + piece && pos <= next <= bytes@.len(),
            Err(e) => expressions(bytes@, pos as int, count as nat, map@) == Err::<
                (Seq<u8>, int),
                ParseError,
            >(e),
        },
{
    let mut at: usize = pos;
    let mut left: u32 = count;
    let ghost mut done: Seq<u8> = Seq::empty();
    proof {
        assert(out@ =~= old(out)@ + done);
        match expressions(bytes@, pos as int, count as nat, map@) {
            Ok((piece, end)) => {
                assert(done + piece =~= piece);
            },
            Err(_) => {},
        }
    }
    while left > 0
        invariant
            pos <= at <= bytes@.len(),
            out@ == old(out)@ + done,
            expressions(bytes@, pos as int, count as nat, map@) == chain(
                done,
                expressions(bytes@, at as int, left as nat, map@),
            ),
        decreases left,
    {
        match rewrite_expression(out, bytes, at, map) {
            Err(e) => {
                return Err(e);
            },
            Ok(next) => {
                proof {
                    let piece = expression(bytes@, at as int, 0, map@)->Ok_0.0;
                    match expressions(bytes@, next as int, (left - 1) as nat, map@) {
                        Ok((more, end)) => {
                            assert(done + (piece + more) =~= (done + piece) + more);
                        },
                        Err(_) => {},
                    }
                    assert(out@ =~= old(out)@ + (done + piece));
                    done = done + piece;
                }
                at = next;
            },
        }
        left = left - 1;
    }
    proof {
        assert(done + Seq::<u8>::empty() =~= done);
    }
    Ok(at)
}

/// The kinds of entry that the sections of a module are made of, as far as
/// linking reads them.
#[derive(Clone, Copy, Debug, PartialEq, Eq, Structural)]
pub enum EntryKind {
    /// A function type of the type section.
    Type,
    /// A type index of the function section.
    Function,
    /// A table of the table section.
    Table,
    /// A global of the global section.
    Global,
    /// A segment of the element section.
    Element,
    /// A function body of the code section.
    Body,
    /// A memory of the memory section.
    Memory,
    /// A segment of the data section.
    Data,
}

/// A function type: the byte `0x60`, the parameter types and the result
/// types, each type one byte. Copied as it is.
pub open spec fn type_entry(s: Seq<u8>, pos: int) -> Result<(Seq<u8>, int), ParseError> {
    match byte_at(s, pos) {
        Err(e) => Err(e),
        Ok(form) => if form != 0x60 {
            Err(error_at(pos, ParseErrorReason::Unsupported))
        } else {
            match u32_at(s, pos + 1) {
                Err(e) => Err(e),
                Ok((params, after)) => match one_byte_types(s, after, params as nat) {
                    Err(e) => Err(e),
                    Ok(middle) => match u32_at(s, middle) {
                        Err(e) => Err(e),
                        Ok((results, last)) => match one_byte_types(s, last, results as nat) {
                            Err(e) => Err(e),
                            Ok(end) => Ok((s.subrange(pos, end), end)),
                        },
                    },
                },
            }
        },
    }
}

/// An entry of the function section: a type index, which is moved.
pub open spec fn function_entry(s: Seq<u8>, pos: int, map: IndexMapView) -> Result<
    (Seq<u8>, int),
    ParseError,
> {
    match u32_at(s, pos) {
        Err(e) => Err(e),
        Ok((index, next)) => match type_target(map, index) {
            None => Err(error_at(pos, ParseErrorReason::OutOfRange)),
            Some(target) => Ok((leb_encode(target as nat), next)),
        },
    }
}

/// A table: a reference type of one byte and limits. Copied as it is. A
/// table with an initializer, which `0x40` opens, is refused.
pub open spec fn table_entry(s: Seq<u8>, pos: int) -> Result<(Seq<u8>, int), ParseError> {
    match byte_at(s, pos) {
        Err(e) => Err(e),
        Ok(first) => if first == 0x40 {
            Err(error_at(pos, ParseErrorReason::Unsupported))
        } else {
            match one_byte_type_at(s, pos) {
                Err(e) => Err(e),
                Ok(after) => match limits_end(s, after) {
                    Err(e) => Err(e),
                    Ok(end) => Ok((s.subrange(pos, end), end)),
                },
            }
        },
    }
}

/// A global: a value type of one byte, a mutability flag and an initializer
/// expression, which is rewritten.
pub open spec fn global_entry(s: Seq<u8>, pos: int, map: IndexMapView) -> Result<
    (Seq<u8>, int),
    ParseError,
> {
    match one_byte_type_at(s, pos) {
        Err(e) => Err(e),
        Ok(after) => match byte_at(s, after) {
            Err(e) => Err(e),
            Ok(mutability) => if mutability > 1 {
                Err(error_at(after, ParseErrorReason::InvalidEntry))
            } else {
                chain(s.subrange(pos, after + 1), expression(s, after + 1, 0, map))
            },
        },
    }
}

/// The head of a segment that may write to a table or a memory: the flag
/// and the index of what it writes to.
pub struct SegmentHead {
    /// The bytes of the head as they are written.
    pub bytes: Seq<u8>,
    /// The offset behind the head as it was read.
    pub end: int,
    /// Whether the head had no index when it was read and has one now.
    pub widened: bool,
}

/// The head of a segment, rewritten. `explicit` is the flag of the form that
/// names what the segment writes to, `active` tells whether the segment
/// writes at all. An active segment without index writes to item 0; where
/// that item has another new index, the segment is written in the form that
/// names it.
pub open spec fn segment_head(
    s: Seq<u8>,
    pos: int,
    flag: u32,
    active: bool,
    named: bool,
    space: Space,
    map: IndexMapView,
) -> Result<SegmentHead, ParseError> {
    if !active {
        Ok(SegmentHead { bytes: leb_encode(flag as nat), end: pos, widened: false })
    } else if named {
        match index_at(s, pos, space, map) {
            Err(e) => Err(e),
            Ok((index, end)) => Ok(
                SegmentHead { bytes: leb_encode(flag as nat) + index, end, widened: false },
            ),
        }
    } else {
        match target(map, space, 0) {
            None => Err(error_at(pos, ParseErrorReason::OutOfRange)),
            Some(new) => if new == 0 {
                Ok(SegmentHead { bytes: leb_encode(flag as nat), end: pos, widened: false })
            } else {
                Ok(
                    SegmentHead {
                        bytes: leb_encode((flag + 2) as nat) + leb_encode(new as nat),
                        end: pos,
                        widened: true,
                    },
                )
            },
        }
    }
}

/// The byte that tells what the items of an element segment are, where the
/// segment had none and was given the index of its table: function indices
/// for flag 0, function references for flag 4.
pub open spec fn added_kind(flag: u32, widened: bool) -> Seq<u8> {
    if !widened {
        Seq::empty()
    } else if flag == 0 {
        seq![0x00u8]
    } else {
        seq![0x70u8]
    }
}

/// The offset expression of an element segment, if its flag announces one,
/// rewritten.
pub open spec fn segment_offset(s: Seq<u8>, pos: int, flag: u32, map: IndexMapView) -> Result<
    (Seq<u8>, int),
    ParseError,
> {
    if flag % 2 == 0 {
        expression(s, pos, 0, map)
    } else {
        Ok((Seq::empty(), pos))
    }
}

/// The byte that tells what the items of an element segment are, if the flag
/// announces one, is skipped: the offset behind it. Where the items are
/// expressions the byte is a reference type.
pub open spec fn segment_kind(s: Seq<u8>, pos: int, flag: u32) -> Result<int, ParseError> {
    if flag % 4 == 0 {
        Ok(pos)
    } else if flag >= 4 {
        one_byte_type_at(s, pos)
    } else {
        match byte_at(s, pos) {
            Err(e) => Err(e),
            Ok(kind) => Ok(pos + 1),
        }
    }
}

/// The items of an element segment: function indices, or expressions from
/// flag 4 on. Each is rewritten.
pub open spec fn segment_items(s: Seq<u8>, pos: int, flag: u32, map: IndexMapView) -> Result<
    (Seq<u8>, int),
    ParseError,
> {
    match u32_at(s, pos) {
        Err(e) => Err(e),
        Ok((count, start)) => chain(
            leb_encode(count as nat),
            if flag >= 4 {
                expressions(s, start, count as nat, map)
            } else {
                function_indices(s, start, count as nat, map)
            },
        ),
    }
}

/// What stands before the items of an element segment, rewritten: the
/// flag, the index of the table, the offset expression and the byte that
/// tells what the items are. With the offset behind it and the flag.
pub open spec fn element_front(s: Seq<u8>, pos: int, map: IndexMapView) -> Result<
    (Seq<u8>, int, u32),
    ParseError,
> {
    match u32_at(s, pos) {
        Err(e) => Err(e),
        Ok((flag, after_flag)) => if flag > 7 {
            Err(error_at(pos, ParseErrorReason::Unsupported))
        } else {
            match segment_head(
                s,
                after_flag,
                flag,
                flag % 2 == 0,
                flag % 4 == 2,
                Space::Table,
                map,
            ) {
                Err(e) => Err(e),
                Ok(head) => match segment_offset(s, head.end, flag, map) {
                    Err(e) => Err(e),
                    Ok((offset, after_offset)) => match segment_kind(s, after_offset, flag) {
                        Err(e) => Err(e),
                        Ok(after_kind) => Ok(
                            (
                                head.bytes + offset + s.subrange(after_offset, after_kind)
                                    + added_kind(flag, head.widened),
                                after_kind,
                                flag,
                            ),
                        ),
                    },
                },
            }
        },
    }
}

/// A segment of the element section: a flag from 0 to 7, then what the flag
/// announces. The index of the table, the offset expression and the items
/// are rewritten, the rest is copied.
pub open spec fn element_entry(s: Seq<u8>, pos: int, map: IndexMapView) -> Result<
    (Seq<u8>, int),
    ParseError,
> {
    match element_front(s, pos, map) {
        Err(e) => Err(e),
        Ok((front, after_kind, flag)) => chain(front, segment_items(s, after_kind, flag, map)),
    }
}

/// A memory: its limits. Copied as it is.
pub open spec fn memory_entry(s: Seq<u8>, pos: int) -> Result<(Seq<u8>, int), ParseError> {
    match limits_end(s, pos) {
        Err(e) => Err(e),
        Ok(end) => Ok((s.subrange(pos, end), end)),
    }
}

/// The bytes of a data segment: their number and themselves. Copied as they
/// are.
pub open spec fn byte_vector(s: Seq<u8>, pos: int) -> Result<(Seq<u8>, int), ParseError> {
    match u32_at(s, pos) {
        Err(e) => Err(e),
        Ok((len, start)) => if len > s.len() - start {
            Err(error_at(pos, ParseErrorReason::LengthOverrun))
        } else {
            Ok((s.subrange(pos, start + len), start + len))
        },
    }
}

/// The offset expression of a data segment, if it is active, rewritten.
pub open spec fn data_offset(s: Seq<u8>, pos: int, flag: u32, map: IndexMapView) -> Result<
    (Seq<u8>, int),
    ParseError,
> {
    if flag == 1 {
        Ok((Seq::empty(), pos))
    } else {
        expression(s, pos, 0, map)
    }
}

/// A segment of the data section: a flag from 0 to 2, the index of the
/// memory for flag 2, the offset expression unless the flag is 1, and the
/// bytes. The index and the expression are rewritten, the bytes are copied.
pub open spec fn data_entry(s: Seq<u8>, pos: int, map: IndexMapView) -> Result<
    (Seq<u8>, int),
    ParseError,
> {
    match u32_at(s, pos) {
        Err(e) => Err(e),
        Ok((flag, after_flag)) => if flag > 2 {
            Err(error_at(pos, ParseErrorReason::Unsupported))
        } else {
            match segment_head(s, after_flag, flag, flag != 1, flag == 2, Space::Memory, map) {
                Err(e) => Err(e),
                Ok(head) => match data_offset(s, head.end, flag, map) {
                    Err(e) => Err(e),
                    Ok((offset, after_offset)) => chain(
                        head.bytes + offset,
                        byte_vector(s, after_offset),
                    ),
                },
            }
        },
    }
}

/// The body of a function, which fills the buffer from `pos` to its end: the
/// groups of locals, copied, and the instructions, rewritten.
pub open spec fn function_body(s: Seq<u8>, pos: int, map: IndexMapView) -> Result<
    (Seq<u8>, int),
    ParseError,
> {
    match u32_at(s, pos) {
        Err(e) => Err(e),
        Ok((groups, after)) => match local_groups(s, after, groups as nat) {
            Err(e) => Err(e),
            Ok(code) => chain(s.subrange(pos, code), instructions(s, code, map)),
        },
    }
}

/// An entry of the code section: the size of a body and the body. The body
/// is rewritten and its size is computed anew.
pub open spec fn body_entry(s: Seq<u8>, pos: int, map: IndexMapView) -> Result<
    (Seq<u8>, int),
    ParseError,
> {
    match u32_at(s, pos) {
        Err(e) => Err(e),
        Ok((size, start)) => if size > s.len() - start {
            Err(error_at(pos, ParseErrorReason::LengthOverrun))
        } else {
            match function_body(s.subrange(0, start + size), start, map) {
                Err(e) => Err(e),
                Ok((body, end)) => Ok((leb_encode(body.len()) + body, start + size)),
            }
        },
    }
}

/// The entry of the given kind at `pos`, rewritten, with the offset behind it.
#[verifier::opaque]
pub open spec fn entry(kind: EntryKind, s: Seq<u8>, pos: int, map: IndexMapView) -> Result<
    (Seq<u8>, int),
    ParseError,
> {
    match kind {
        EntryKind::Type => type_entry(s, pos),
        EntryKind::Function => function_entry(s, pos, map),
        EntryKind::Table => table_entry(s, pos),
        EntryKind::Global => global_entry(s, pos, map),
        EntryKind::Element => element_entry(s, pos, map),
        EntryKind::Body => body_entry(s, pos, map),
        EntryKind::Memory => memory_entry(s, pos),
        EntryKind::Data => data_entry(s, pos, map),
    }
}

/// `count` entries of the given kind from `pos` on, rewritten.
pub open spec fn entries(kind: EntryKind, s: Seq<u8>, pos: int, count: nat, map: IndexMapView)
    -> Result<(Seq<u8>, int), ParseError>
    decreases count,
{
    if count == 0 {
        Ok((Seq::empty(), pos))
    } else {
        match entry(kind, s, pos, map) {
            Err(e) => Err(e),
            Ok((piece, next)) => chain(piece, entries(kind, s, next, (count - 1) as nat, map)),
        }
    }
}

/// The entries of a section of the given kind, rewritten: the count that
/// opens the payload, and the bytes of that many entries, which must fill
/// the payload.
pub open spec fn vector(kind: EntryKind, payload: Seq<u8>, map: IndexMapView) -> Result<
    (u32, Seq<u8>),
    ParseError,
> {
    match u32_at(payload, 0) {
        Err(e) => Err(e),
        Ok((count, start)) => match entries(kind, payload, start, count as nat, map) {
            Err(e) => Err(e),
            Ok((bytes, end)) => if end != payload.len() {
                Err(error_at(end, ParseErrorReason::TrailingBytes))
            } else {
                Ok((count, bytes))
            },
        },
    }
}

fn rewrite_type_entry(out: &mut Vec<u8>, bytes: &[u8], pos: usize) -> (r: Result<usize, ParseError>)
    requires
        pos <= bytes@.len(),
    ensures
        match r {
            Ok(next) => type_entry(bytes@, pos as int) matches Ok((piece, end)) && end == next
                && final(out)@ == old(out)@ + piece && pos < next <= bytes@.len(),
            Err(e) => type_entry(bytes@, pos as int) == Err::<(Seq<u8>, int), ParseError>(e),
        },
{
    let form = match read_byte(bytes, pos) {
        Err(e) => {
            return Err(e);
        },
        Ok(b) => b,
    };
    if form != 0x60 {
        return fail(pos, ParseErrorReason::Unsupported);
    }
    let (params, after) = match read_u32(bytes, pos + 1) {
        Err(e) => {
            return Err(e);
        },
        Ok(pair) => pair,
    };
    let middle = match skip_one_byte_types(bytes, after, params) {
        Err(e) => {
            return Err(e);
        },
        Ok(p) => p,
    };
    let (results, last) = match read_u32(bytes, middle) {
        Err(e) => {
            return Err(e);
        },
        Ok(pair) => pair,
    };
    let end = match skip_one_byte_types(bytes, last, results) {
        Err(e) => {
            return Err(e);
        },
        Ok(p) => p,
    };
    append_bytes(out, slice_subrange(bytes, pos, end));
    Ok(end)
}

fn rewrite_function_entry(out: &mut Vec<u8>, bytes: &[u8], pos: usize, map: &IndexMap) -> (r:
    Result<usize, ParseError>)
    requires
        pos <= bytes@.len(),
    ensures
        match r {
            Ok(next) => function_entry(bytes@, pos as int, map@) matches Ok((piece, end)) && end
                == next && final(out)@ == old(out)@ + piece && pos < next <= bytes@.len(),
            Err(e) => function_entry(bytes@, pos as int, map@) == Err::<
                (Seq<u8>, int),
                ParseError,
            >(e),
        },
{
    let (index, next) = match read_u32(bytes, pos) {
        Err(e) => {
            return Err(e);
        },
        Ok(pair) => pair,
    };
    match map.type_index(index) {
        None => fail(pos, ParseErrorReason::OutOfRange),
        Some(target) => {
            write_uleb128(out, target as u64);
            Ok(next)
        },
    }
}

fn rewrite_table_entry(out: &mut Vec<u8>, bytes: &[u8], pos: usize) -> (r: Result<
    usize,
    ParseError,
>)
    requires
        pos <= bytes@.len(),
    ensures
        match r {
            Ok(next) => table_entry(bytes@, pos as int) matches Ok((piece, end)) && end == next
                && final(out)@ == old(out)@ + piece && pos < next <= bytes@.len(),
            Err(e) => table_entry(bytes@, pos as int) == Err::<(Seq<u8>, int), ParseError>(e),
        },
{
    let first = match read_byte(bytes, pos) {
        Err(e) => {
            return Err(e);
        },
        Ok(b) => b,
    };
    if first == 0x40 {
        return fail(pos, ParseErrorReason::Unsupported);
    }
    let after = match skip_one_byte_type(bytes, pos) {
        Err(e) => {
            return Err(e);
        },
        Ok(p) => p,
    };
    let end = match skip_limits(bytes, after) {
        Err(e) => {
            return Err(e);
        },
        Ok(p) => p,
    };
    append_bytes(out, slice_subrange(bytes, pos, end));
    Ok(end)
}

fn rewrite_global_entry(out: &mut Vec<u8>, bytes: &[u8], pos: usize, map: &IndexMap) -> (r: Result<
    usize,
    ParseError,
>)
    requires
        pos <= bytes@.len(),
    ensures
        match r {
            Ok(next) => global_entry(bytes@, pos as int, map@) matches Ok((piece, end)) && end
                == next && final(out)@ == old(out)@ + piece && pos < next <= bytes@.len(),
            Err(e) => global_entry(bytes@, pos as int, map@) == Err::<(Seq<u8>, int), ParseError>(
                e,
            ),
        },
{
    let after = match skip_one_byte_type(bytes, pos) {
        Err(e) => {
            return Err(e);
        },
        Ok(p) => p,
    };
    let mutability = match read_byte(bytes, after) {
        Err(e) => {
            return Err(e);
        },
        Ok(b) => b,
    };
    if mutability > 1 {
        return fail(after, ParseErrorReason::InvalidEntry);
    }
    append_bytes(out, slice_subrange(bytes, pos, after + 1));
    let ghost head = bytes@.subrange(pos as int, after + 1);
    match rewrite_expression(out, bytes, after + 1, map) {
        Err(e) => Err(e),
        Ok(next) => {
            proof {
                let piece = expression(bytes@, after + 1, 0, map@)->Ok_0.0;
                assert(out@ =~= old(out)@ + (head + piece));
            }
            Ok(next)
        },
    }
}

/// Rewrites the head of a segment and appends it to `out`. Returns the
/// offset behind the head as it was read, and whether the head was widened.
fn rewrite_segment_head(
    out: &mut Vec<u8>,
    bytes: &[u8],
    pos: usize,
    flag: u32,
    active: bool,
    named: bool,
    space: Space,
    map: &IndexMap,
) -> (r: Result<(usize, bool), ParseError>)
    requires
        pos <= bytes@.len(),
        flag <= 7,
    ensures
        match r {
            Ok((end, widened)) => segment_head(
                bytes@,
                pos as int,
                flag,
                active,
                named,
                space,
                map@,
            ) matches Ok(head) && head.end == end && head.widened == widened && final(out)@
                == old(out)@ + head.bytes && pos <= end <= bytes@.len(),
            Err(e) => segment_head(bytes@, pos as int, flag, active, named, space, map@) == Err::<
                SegmentHead,
                ParseError,
            >(e),
        },
{
    if !active {
        write_uleb128(out, flag as u64);
        Ok((pos, false))
    } else if named {
        write_uleb128(out, flag as u64);
        let ghost written = leb_encode(flag as nat);
        match rewrite_index(out, bytes, pos, space, map) {
            Err(e) => Err(e),
            Ok(end) => {
                proof {
                    let index = index_at(bytes@, pos as int, space, map@)->Ok_0.0;
                    assert(out@ =~= old(out)@ + (written + index));
                }
                Ok((end, false))
            },
        }
    } else {
        match map.target(space, 0) {
            None => fail(pos, ParseErrorReason::OutOfRange),
            Some(new) => {
                if new == 0 {
                    write_uleb128(out, flag as u64);
                    Ok((pos, false))
                } else {
                    write_uleb128(out, (flag + 2) as u64);
                    write_uleb128(out, new as u64);
                    proof {
                        assert(out@ =~= old(out)@ + (leb_encode((flag + 2) as nat) + leb_encode(
                            new as nat,
                        )));
                    }
                    Ok((pos, true))
                }
            },
        }
    }
}

fn rewrite_segment_offset(
    out: &mut Vec<u8>,
    bytes: &[u8],
    pos: usize,
    flag: u32,
    map: &IndexMap,
) -> (r: Result<usize, ParseError>)
    requires
        pos <= bytes@.len(),
    ensures
        match r {
            Ok(next) => segment_offset(bytes@, pos as int, flag, map@) matches Ok((piece, end))
                && end == next && final(out)@ == old(out)@ + piece && pos <= next <= bytes@.len(),
            Err(e) => segment_offset(bytes@, pos as int, flag, map@) == Err::<
                (Seq<u8>, int),
                ParseError,
            >(e),
        },
{
    if flag % 2 == 0 {
        rewrite_expression(out, bytes, pos, map)
    } else {
        proof {
            assert(out@ =~= old(out)@ + Seq::<u8>::empty());
        }
        Ok(pos)
    }
}

fn skip_segment_kind(bytes: &[u8], pos: usize, flag: u32) -> (r: Result<usize, ParseError>)
    requires
        pos <= bytes@.len(),
    ensures
        match r {
            Ok(next) => segment_kind(bytes@, pos as int, flag) == Ok::<int, ParseError>(
                next as int,
            ) && pos <= next <= bytes@.len(),
            Err(e) => segment_kind(bytes@, pos as int, flag) == Err::<int, ParseError>(e),
        },
{
    if flag % 4 == 0 {
        Ok(pos)
    } else if flag >= 4 {
        skip_one_byte_type(bytes, pos)
    } else {
        match read_byte(bytes, pos) {
            Err(e) => Err(e),
            Ok(kind) => Ok(pos + 1),
        }
    }
}

fn rewrite_segment_items(
    out: &mut Vec<u8>,
    bytes: &[u8],
    pos: usize,
    flag: u32,
    map: &IndexMap,
) -> (r: Result<usize, ParseError>)
    requires
        pos <= bytes@.len(),
    ensures
        match r {
            Ok(next) => segment_items(bytes@, pos as int, flag, map@) matches Ok((piece, end))
                && end == next && final(out)@ == old(out)@ + piece && pos < next <= bytes@.len(),
            Err(e) => segment_items(bytes@, pos as int, flag, map@) == Err::<
                (Seq<u8>, int),
                ParseError,
            >(e),
        },
{
    let (count, start) = match read_u32(bytes, pos) {
        Err(e) => {
            return Err(e);
        },
        Ok(pair) => pair,
    };
    write_uleb128(out, count as u64);
    let items = if flag >= 4 {
        rewrite_expressions(out, bytes, start, count, map)
    } else {
        rewrite_function_indices(out, bytes, start, count, map)
    };
    match items {
        Err(e) => Err(e),
        Ok(next) => {
            proof {
                let listed = if flag >= 4 {
                    expressions(bytes@, start as int, count as nat, map@)->Ok_0.0
                } else {
                    function_indices(bytes@, start as int, count as nat, map@)->Ok_0.0
                };
                assert(out@ =~= old(out)@ + (leb_encode(count as nat) + listed));
            }
            Ok(next)
        },
    }
}

fn rewrite_element_front(out: &mut Vec<u8>, bytes: &[u8], pos: usize, map: &IndexMap) -> (r:
    Result<(usize, u32), ParseError>)
    requires
        pos <= bytes@.len(),
    ensures
        match r {
            Ok((after_kind, flag)) => element_front(bytes@, pos as int, map@) matches Ok(
                (piece, end, found),
            ) && end == after_kind && found == flag && final(out)@ == old(out)@ + piece && pos
                < after_kind <= bytes@.len(),
            Err(e) => element_front(bytes@, pos as int, map@) == Err::<
                (Seq<u8>, int, u32),
                ParseError,
            >(e),
        },
{
    let (flag, after_flag) = match read_u32(bytes, pos) {
        Err(e) => {
            return Err(e);
        },
        Ok(pair) => pair,
    };
    if flag > 7 {
        return fail(pos, ParseErrorReason::Unsupported);
    }
    let (after_table, widened) = match rewrite_segment_head(
        out,
        bytes,
        after_flag,
        flag,
        flag % 2 == 0,
        flag % 4 == 2,
        Space::Table,
        map,
    ) {
        Err(e) => {
            return Err(e);
        },
        Ok(pair) => pair,
    };
    let ghost head = out@;
    let after_offset = match rewrite_segment_offset(out, bytes, after_table, flag, map) {
        Err(e) => {
            return Err(e);
        },
        Ok(p) => p,
    };
    let after_kind = match skip_segment_kind(bytes, after_offset, flag) {
        Err(e) => {
            return Err(e);
        },
        Ok(p) => p,
    };
    append_bytes(out, slice_subrange(bytes, after_offset, after_kind));
    let ghost copied = out@;
    if widened {
        if flag == 0 {
            out.push(0x00);
        } else {
            out.push(0x70);
        }
    }
    proof {
        assert(out@ =~= copied + added_kind(flag, widened));
        let piece = element_front(bytes@, pos as int, map@)->Ok_0.0;
        assert(out@ =~= old(out)@ + piece);
    }
    Ok((after_kind, flag))
}

fn rewrite_element_entry(out: &mut Vec<u8>, bytes: &[u8], pos: usize, map: &IndexMap) -> (r:
    Result<usize, ParseError>)
    requires
        pos <= bytes@.len(),
    ensures
        match r {
            Ok(next) => element_entry(bytes@, pos as int, map@) matches Ok((piece, end)) && end
                == next && final(out)@ == old(out)@ + piece && pos < next <= bytes@.len(),
            Err(e) => element_entry(bytes@, pos as int, map@) == Err::<(Seq<u8>, int), ParseError>(
                e,
            ),
        },
{
    let (after_kind, flag) = match rewrite_element_front(out, bytes, pos, map) {
        Err(e) => {
            return Err(e);
        },
        Ok(pair) => pair,
    };
    let ghost front = element_front(bytes@, pos as int, map@)->Ok_0.0;
    match rewrite_segment_items(out, bytes, after_kind, flag, map) {
        Err(e) => Err(e),
        Ok(next) => {
            proof {
                let listed = segment_items(bytes@, after_kind as int, flag, map@)->Ok_0.0;
                assert(out@ =~= old(out)@ + (front + listed));
            }
            Ok(next)
        },
    }
}

fn rewrite_memory_entry(out: &mut Vec<u8>, bytes: &[u8], pos: usize) -> (r: Result<
    usize,
    ParseError,
>)
    requires
        pos <= bytes@.len(),
    ensures
        match r {
            Ok(next) => memory_entry(bytes@, pos as int) matches Ok((piece, end)) && end == next
                && final(out)@ == old(out)@ + piece && pos < next <= bytes@.len(),
            Err(e) => memory_entry(bytes@, pos as int) == Err::<(Seq<u8>, int), ParseError>(e),
        },
{
    let end = match skip_limits(bytes, pos) {
        Err(e) => {
            return Err(e);
        },
        Ok(p) => p,
    };
    append_bytes(out, slice_subrange(bytes, pos, end));
    Ok(end)
}

fn copy_byte_vector(out: &mut Vec<u8>, bytes: &[u8], pos: usize) -> (r: Result<usize, ParseError>)
    requires
        pos <= bytes@.len(),
    ensures
        match r {
            Ok(next) => byte_vector(bytes@, pos as int) matches Ok((piece, end)) && end == next
                && final(out)@ == old(out)@ + piece && pos < next <= bytes@.len(),
            Err(e) => byte_vector(bytes@, pos as int) == Err::<(Seq<u8>, int), ParseError>(e),
        },
{
    let (len, start) = match read_u32(bytes, pos) {
        Err(e) => {
            return Err(e);
        },
        Ok(pair) => pair,
    };
    if len as usize > bytes.len() - start {
        return fail(pos, ParseErrorReason::LengthOverrun);
    }
    let end: usize = start + len as usize;
    append_bytes(out, slice_subrange(bytes, pos, end));
    Ok(end)
}

fn rewrite_data_entry(out: &mut Vec<u8>, bytes: &[u8], pos: usize, map: &IndexMap) -> (r: Result<
    usize,
    ParseError,
>)
    requires
        pos <= bytes@.len(),
    ensures
        match r {
            Ok(next) => data_entry(bytes@, pos as int, map@) matches Ok((piece, end)) && end
                == next && final(out)@ == old(out)@ + piece && pos < next <= bytes@.len(),
            Err(e) => data_entry(bytes@, pos as int, map@) == Err::<(Seq<u8>, int), ParseError>(e),
        },
{
    let (flag, after_flag) = match read_u32(bytes, pos) {
        Err(e) => {
            return Err(e);
        },
        Ok(pair) => pair,
    };
    if flag > 2 {
        return fail(pos, ParseErrorReason::Unsupported);
    }
    let (after_head, widened) = match rewrite_segment_head(
        out,
        bytes,
        after_flag,
        flag,
        flag != 1,
        flag == 2,
        Space::Memory,
        map,
    ) {
        Err(e) => {
            return Err(e);
        },
        Ok(pair) => pair,
    };
    let ghost head = segment_head(
        bytes@,
        after_flag as int,
        flag,
        flag != 1,
        flag == 2,
        Space::Memory,
        map@,
    )->Ok_0.bytes;
    let after_offset = if flag == 1 {
        after_head
    } else {
        match rewrite_expression(out, bytes, after_head, map) {
            Err(e) => {
                return Err(e);
            },
            Ok(p) => p,
        }
    };
    let ghost offset = data_offset(bytes@, after_head as int, flag, map@)->Ok_0.0;
    proof {
        assert(out@ =~= old(out)@ + (head + offset));
    }
    match copy_byte_vector(out, bytes, after_offset) {
        Err(e) => Err(e),
        Ok(next) => {
            proof {
                let copied = byte_vector(bytes@, after_offset as int)->Ok_0.0;
                assert(out@ =~= old(out)@ + ((head + offset) + copied));
            }
            Ok(next)
        },
    }
}

fn rewrite_body_entry(out: &mut Vec<u8>, bytes: &[u8], pos: usize, map: &IndexMap) -> (r: Result<
    usize,
    ParseError,
>)
    requires
        pos <= bytes@.len(),
    ensures
        match r {
            Ok(next) => body_entry(bytes@, pos as int, map@) matches Ok((piece, end)) && end
                == next && final(out)@ == old(out)@ + piece && pos < next <= bytes@.len(),
            Err(e) => body_entry(bytes@, pos as int, map@) == Err::<(Seq<u8>, int), ParseError>(e),
        },
{
    let (size, start) = match read_u32(bytes, pos) {
        Err(e) => {
            return Err(e);
        },
        Ok(pair) => pair,
    };
    if size as usize > bytes.len() - start {
        return fail(pos, ParseErrorReason::LengthOverrun);
    }
    let end: usize = start + size as usize;
    let window = slice_subrange(bytes, 0, end);
    let (groups, after) = match read_u32(window, start) {
        Err(e) => {
            return Err(e);
        },
        Ok(pair) => pair,
    };
    let code = match skip_local_groups(window, after, groups) {
        Err(e) => {
            return Err(e);
        },
        Ok(p) => p,
    };
    let mut body: Vec<u8> = Vec::new();
    append_bytes(&mut body, slice_subrange(window, start, code));
    let ghost head = window@.subrange(start as int, code as int);
    match rewrite_instructions(&mut body, window, code, map) {
        Err(e) => Err(e),
        Ok(()) => {
            proof {
                let tail = instructions(window@, code as int, map@)->Ok_0.0;
                assert(body@ =~= head + tail);
            }
            write_uleb128(out, body.len() as u64);
            append_bytes(out, body.as_slice());
            proof {
                assert(out@ =~= old(out)@ + (leb_encode(body@.len()) + body@));
            }
            Ok(end)
        },
    }
}

/// Rewrites the entry of the given kind at `pos` and appends it to `out`.
pub fn rewrite_entry(
    kind: EntryKind,
    out: &mut Vec<u8>,
    bytes: &[u8],
    pos: usize,
    map: &IndexMap,
) -> (r: Result<usize, ParseError>)
    requires
        pos <= bytes@.len(),
    ensures
        match r {
            Ok(next) => entry(kind, bytes@, pos as int, map@) matches Ok((piece, end)) && end
                == next && final(out)@ == old(out)@ + piece && pos < next <= bytes@.len(),
            Err(e) => entry(kind, bytes@, pos as int, map@) == Err::<(Seq<u8>, int), ParseError>(
                e,
            ),
        },
{
    reveal(entry);
    match kind {
        EntryKind::Type => rewrite_type_entry(out, bytes, pos),
        EntryKind::Function => rewrite_function_entry(out, bytes, pos, map),
        EntryKind::Table => rewrite_table_entry(out, bytes, pos),
        EntryKind::Global => rewrite_global_entry(out, bytes, pos, map),
        EntryKind::Element => rewrite_element_entry(out, bytes, pos, map),
        EntryKind::Body => rewrite_body_entry(out, bytes, pos, map),
        EntryKind::Memory => rewrite_memory_entry(out, bytes, pos),
        EntryKind::Data => rewrite_data_entry(out, bytes, pos, map),
    }
}

/// Rewrites the entries of a section of the given kind and appends them to
/// `out`. Returns the number of entries.
pub fn rewrite_vector(kind: EntryKind, out: &mut Vec<u8>, payload: &[u8], map: &IndexMap) -> (r:
    Result<u32, ParseError>)
    ensures
        match r {
            Ok(count) => vector(kind, payload@, map@) matches Ok((n, piece)) && n == count
                && final(out)@ == old(out)@ + piece,
            Err(e) => vector(kind, payload@, map@) == Err::<(u32, Seq<u8>), ParseError>(e),
        },
{
    let (count, start) = match read_u32(payload, 0) {
        Err(e) => {
            return Err(e);
        },
        Ok(pair) => pair,
    };
    let mut at: usize = start;
    let mut left: u32 = count;
    let ghost mut done: Seq<u8> = Seq::empty();
    proof {
        assert(out@ =~= old(out)@ + done);
        match entries(kind, payload@, start as int, count as nat, map@) {
            Ok((piece, end)) => {
                assert(done + piece =~= piece);
            },
            Err(_) => {},
        }
    }
    while left > 0
        invariant
            at <= payload@.len(),
            out@ == old(out)@ + done,
            u32_at(payload@, 0) == Ok::<(u32, int), ParseError>((count, start as int)),
            entries(kind, payload@, start as int, count as nat, map@) == chain(
                done,
                entries(kind, payload@, at as int, left as nat, map@),
            ),
        decreases left,
    {
        match rewrite_entry(kind, out, payload, at, map) {
            Err(e) => {
                return Err(e);
            },
            Ok(next) => {
                proof {
                    let piece = entry(kind, payload@, at as int, map@)->Ok_0.0;
                    match entries(kind, payload@, next as int, (left - 1) as nat, map@) {
                        Ok((more, end)) => {
                            assert(done + (piece + more) =~= (done + piece) + more);
                        },
                        Err(_) => {},
                    }
                    assert(out@ =~= old(out)@ + (done + piece));
                    done = done + piece;
                }
                at = next;
            },
        }
        left = left - 1;
    }
    proof {
        assert(done + Seq::<u8>::empty() =~= done);
    }
    if at != payload.len() {
        return fail(at, ParseErrorReason::TrailingBytes);
    }
    Ok(count)
}

} // verus!
