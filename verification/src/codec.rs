//! The binary codec: bytes to sections and back.
//!
//! Decoding checks the eight-byte header, then reads sections until the
//! buffer ends. Section payloads are not interpreted, apart from the name
//! that opens a custom section. Encoding writes the sections in the order in
//! which the module holds them and computes every length field.

use crate::leb128::{
    leb_decode, leb_encode, lemma_leb_decode_bounds, lemma_leb_encode_minimal,
    lemma_leb_round_trip, lemma_leb_shortest_is_minimal, occurs_at, read_uleb128, write_uleb128,
    LebError,
};
use crate::module::{
    sections_wf, Module, ParseError, ParseErrorReason, Section, SectionKind, SectionView,
};
use vstd::prelude::*;
use vstd::slice::slice_subrange;

verus! {

/// The magic number and the version that open every module.
pub open spec fn header() -> Seq<u8> {
    seq![0x00u8, 0x61u8, 0x73u8, 0x6du8, 0x01u8, 0x00u8, 0x00u8, 0x00u8]
}

/// The buffer opens with the magic number.
pub open spec fn has_magic(bytes: Seq<u8>) -> bool {
    bytes.len() >= 4 && bytes.subrange(0, 4) == header().subrange(0, 4)
}

/// The version follows the magic number.
pub open spec fn has_version(bytes: Seq<u8>) -> bool {
    bytes.len() >= 8 && bytes.subrange(4, 8) == header().subrange(4, 8)
}

/// The error that a failed read of a length prefix at `offset` becomes.
pub open spec fn length_error(e: LebError, offset: int) -> ParseError {
    match e {
        LebError::Truncated => ParseError {
            offset: offset as usize,
            reason: ParseErrorReason::TruncatedLength,
        },
        LebError::Oversized => ParseError {
            offset: offset as usize,
            reason: ParseErrorReason::OversizedLeb,
        },
    }
}

/// The section that an identifier byte and the bytes behind the length prefix
/// stand for. `base` is the offset of `body` in the module, for errors.
pub open spec fn section_from(id: u8, body: Seq<u8>, base: int) -> Result<SectionView, ParseError> {
    if id == 0 {
        match leb_decode(body, 0) {
            Err(e) => Err(length_error(e, base)),
            Ok((len, n)) => if len > body.len() - n {
                Err(ParseError { offset: base as usize, reason: ParseErrorReason::LengthOverrun })
            } else {
                Ok(
                    SectionView::Custom {
                        name: body.subrange(n as int, (n + len) as int),
                        data: body.subrange((n + len) as int, body.len() as int),
                    },
                )
            },
        }
    } else {
        match SectionKind::of_id(id) {
            Some(kind) => Ok(SectionView::Standard { kind, payload: body }),
            None => Ok(SectionView::Unknown { id, payload: body }),
        }
    }
}

/// The section that starts at `pos`, with the offset of whatever follows it.
pub open spec fn section_at(bytes: Seq<u8>, pos: int) -> Result<(SectionView, int), ParseError> {
    match leb_decode(bytes, pos + 1) {
        Err(e) => Err(length_error(e, pos + 1)),
        Ok((size, n)) => {
            let start = pos + 1 + n;
            if size > bytes.len() - start {
                Err(
                    ParseError {
                        offset: (pos + 1) as usize,
                        reason: ParseErrorReason::LengthOverrun,
                    },
                )
            } else {
                match section_from(bytes[pos], bytes.subrange(start, start + size), start) {
                    Ok(section) => Ok((section, start + size)),
                    Err(e) => Err(e),
                }
            }
        },
    }
}

/// `sections` followed by whatever `rest` holds, or the error in `rest`.
pub open spec fn prepend(sections: Seq<SectionView>, rest: Result<Seq<SectionView>, ParseError>)
    -> Result<Seq<SectionView>, ParseError> {
    match rest {
        Ok(more) => Ok(sections + more),
        Err(e) => Err(e),
    }
}

/// The sections that fill the buffer from `pos` to its end.
pub open spec fn sections_from(bytes: Seq<u8>, pos: int) -> Result<Seq<SectionView>, ParseError>
    decreases bytes.len() - pos,
{
    if pos < 0 || pos >= bytes.len() {
        Ok(Seq::empty())
    } else {
        match section_at(bytes, pos) {
            Err(e) => Err(e),
            Ok((section, next)) => {
                proof {
                    lemma_leb_decode_bounds(bytes, pos + 1);
                }
                prepend(seq![section], sections_from(bytes, next))
            },
        }
    }
}

/// What decoding a buffer gives: the sections of the module, or the first
/// error met.
pub open spec fn decode_spec(bytes: Seq<u8>) -> Result<Seq<SectionView>, ParseError> {
    if !has_magic(bytes) {
        Err(ParseError { offset: 0, reason: ParseErrorReason::MalformedHeader })
    } else if !has_version(bytes) {
        Err(ParseError { offset: 4, reason: ParseErrorReason::MalformedHeader })
    } else {
        sections_from(bytes, 8)
    }
}

/// The bytes of a section behind its length prefix.
pub open spec fn section_body(section: SectionView) -> Seq<u8> {
    match section {
        SectionView::Custom { name, data } => leb_encode(name.len()) + name + data,
        SectionView::Standard { kind, payload } => payload,
        SectionView::Unknown { id, payload } => payload,
    }
}

/// The bytes of one section: identifier, computed length, body.
pub open spec fn encode_section(section: SectionView) -> Seq<u8> {
    seq![section.id()] + leb_encode(section_body(section).len()) + section_body(section)
}

/// The bytes of a sequence of sections, one after the other.
pub open spec fn encode_sections(sections: Seq<SectionView>) -> Seq<u8>
    decreases sections.len(),
{
    if sections.len() == 0 {
        Seq::empty()
    } else {
        encode_sections(sections.drop_last()) + encode_section(sections.last())
    }
}

/// What encoding a module gives: the header, then every section in order.
pub open spec fn encode_spec(sections: Seq<SectionView>) -> Seq<u8> {
    header() + encode_sections(sections)
}

/// A section that was read ends after the place where it starts, inside the
/// buffer, and is well formed.
pub proof fn lemma_section_at_bounds(bytes: Seq<u8>, pos: int)
    requires
        0 <= pos < bytes.len(),
        bytes.len() <= u64::MAX,
    ensures
        section_at(bytes, pos) matches Ok((section, next)) ==> {
            &&& pos + 2 <= next <= bytes.len()
            &&& section.wf()
            &&& section.id() == bytes[pos]
        },
{
    lemma_leb_decode_bounds(bytes, pos + 1);
    match leb_decode(bytes, pos + 1) {
        Ok((size, n)) => {
            let start = pos + 1 + n;
            if size <= bytes.len() - start {
                let body = bytes.subrange(start, start + size);
                lemma_leb_decode_bounds(body, 0);
                lemma_leb_encode_minimal(body, 0, 10);
            }
        },
        Err(_) => {},
    }
}

/// Whatever decodes is well formed.
pub proof fn lemma_sections_from_wf(bytes: Seq<u8>, pos: int)
    requires
        bytes.len() <= u64::MAX,
    ensures
        sections_from(bytes, pos) matches Ok(sections) ==> sections_wf(sections),
    decreases bytes.len() - pos,
{
    if pos < 0 || pos >= bytes.len() {
    } else {
        lemma_section_at_bounds(bytes, pos);
        match section_at(bytes, pos) {
            Err(e) => {},
            Ok((section, next)) => {
                lemma_sections_from_wf(bytes, next);
            },
        }
    }
}

/// Encoding distributes over concatenation.
pub proof fn lemma_encode_sections_concat(a: Seq<SectionView>, b: Seq<SectionView>)
    ensures
        encode_sections(a + b) == encode_sections(a) + encode_sections(b),
    decreases b.len(),
{
    if b.len() == 0 {
        assert(a + b =~= a);
        assert(encode_sections(a) + encode_sections(b) =~= encode_sections(a));
    } else {
        assert((a + b).drop_last() =~= a + b.drop_last());
        assert((a + b).last() == b.last());
        lemma_encode_sections_concat(a, b.drop_last());
        assert(encode_sections(a + b) =~= encode_sections(a) + encode_sections(b));
    }
}

/// The encoding of a single section, as a sequence of one.
pub proof fn lemma_encode_sections_one(section: SectionView)
    ensures
        encode_sections(seq![section]) == encode_section(section),
{
    let s = seq![section];
    assert(s.drop_last() =~= Seq::<SectionView>::empty());
    assert(encode_sections(s.drop_last()) =~= Seq::<u8>::empty());
    assert(s.last() == section);
    assert(encode_sections(s) =~= encode_section(section));
}

/// A well-formed section is read back from the bytes that encode it,
/// whatever surrounds them.
pub proof fn lemma_section_round_trip(bytes: Seq<u8>, pos: int, section: SectionView)
    requires
        section.wf(),
        occurs_at(bytes, pos, encode_section(section)),
    ensures
        section_at(bytes, pos) == Ok::<(SectionView, int), ParseError>(
            (section, pos + encode_section(section).len()),
        ),
{
    let body = section_body(section);
    let size = body.len();
    let prefix = leb_encode(size);
    let enc = encode_section(section);
    assert(enc.len() == 1 + prefix.len() + size);
    assert(bytes.subrange(pos, pos + enc.len()) == enc);
    assert(bytes[pos] == enc[0]);
    assert(bytes.subrange(pos + 1, pos + 1 + prefix.len()) =~= enc.subrange(
        1,
        1 + prefix.len() as int,
    ));
    assert(enc.subrange(1, 1 + prefix.len() as int) =~= prefix);
    lemma_leb_round_trip(bytes, pos + 1, size);
    let start = pos + 1 + prefix.len();
    assert(bytes.subrange(start, start + size) =~= enc.subrange(
        1 + prefix.len() as int,
        enc.len() as int,
    ));
    assert(enc.subrange(1 + prefix.len() as int, enc.len() as int) =~= body);
    match section {
        SectionView::Custom { name, data } => {
            let name_prefix = leb_encode(name.len());
            assert(body.subrange(0, name_prefix.len() as int) =~= name_prefix);
            lemma_leb_round_trip(body, 0, name.len());
            let mid = (name_prefix.len() + name.len()) as int;
            assert(body.subrange(name_prefix.len() as int, mid) =~= name);
            assert(body.subrange(mid, body.len() as int) =~= data);
        },
        SectionView::Standard { kind, payload } => {},
        SectionView::Unknown { id, payload } => {},
    }
}

/// Well-formed sections are read back from the bytes that encode them.
pub proof fn lemma_sections_round_trip(prefix: Seq<u8>, sections: Seq<SectionView>)
    requires
        sections_wf(sections),
    ensures
        sections_from(prefix + encode_sections(sections), prefix.len() as int) == Ok::<
            Seq<SectionView>,
            ParseError,
        >(sections),
    decreases sections.len(),
{
    let bytes = prefix + encode_sections(sections);
    let pos = prefix.len() as int;
    if sections.len() == 0 {
        assert(sections =~= Seq::<SectionView>::empty());
    } else {
        let first = sections[0];
        let rest = sections.subrange(1, sections.len() as int);
        assert(sections =~= seq![first] + rest);
        lemma_encode_sections_concat(seq![first], rest);
        lemma_encode_sections_one(first);
        let enc = encode_section(first);
        assert(bytes =~= prefix + enc + encode_sections(rest));
        assert(bytes.subrange(pos, pos + enc.len()) =~= enc);
        lemma_section_round_trip(bytes, pos, first);
        assert forall|i: int| 0 <= i < rest.len() implies (#[trigger] rest[i]).wf() by {
            assert(rest[i] == sections[i + 1]);
        }
        lemma_sections_round_trip(prefix + enc, rest);
        assert(prefix + enc + encode_sections(rest) =~= (prefix + enc) + encode_sections(rest));
    }
}

/// Decoding the encoding of well-formed sections gives them back.
pub proof fn lemma_decode_encode(sections: Seq<SectionView>)
    requires
        sections_wf(sections),
    ensures
        decode_spec(encode_spec(sections)) == Ok::<Seq<SectionView>, ParseError>(sections),
{
    let bytes = encode_spec(sections);
    assert(bytes.subrange(0, 4) =~= header().subrange(0, 4));
    assert(bytes.subrange(4, 8) =~= header().subrange(4, 8));
    lemma_sections_round_trip(header(), sections);
}

/// Round-trip stability: whatever a buffer decodes to, encoding that and
/// decoding again gives the same.
pub proof fn lemma_round_trip_stable(bytes: Seq<u8>)
    requires
        bytes.len() <= u64::MAX,
    ensures
        decode_spec(bytes) matches Ok(sections) ==> decode_spec(encode_spec(sections))
            == decode_spec(bytes),
{
    if let Ok(sections) = decode_spec(bytes) {
        lemma_sections_from_wf(bytes, 8);
        lemma_decode_encode(sections);
    }
}

/// Encoding loses nothing: modules with the same bytes are the same module.
pub proof fn lemma_encode_injective(a: Seq<SectionView>, b: Seq<SectionView>)
    requires
        sections_wf(a),
        sections_wf(b),
        encode_spec(a) == encode_spec(b),
    ensures
        a == b,
{
    lemma_decode_encode(a);
    lemma_decode_encode(b);
}

/// A buffer that an encoder wrote is reproduced byte for byte by decoding it
/// and encoding the result.
pub proof fn lemma_encode_decode_identity(sections: Seq<SectionView>)
    requires
        sections_wf(sections),
    ensures
        decode_spec(encode_spec(sections)) matches Ok(again) && encode_spec(again) == encode_spec(
            sections,
        ),
{
    lemma_decode_encode(sections);
}

/// The integer at `pos` is written in as few bytes as it can be.
pub open spec fn minimal_at(s: Seq<u8>, pos: int) -> bool {
    leb_decode(s, pos) matches Ok((v, n)) && n == leb_encode(v).len()
}

/// The section at `pos` is written as the encoder writes it: its length
/// prefix is minimal, and so is the length of its name if it is a custom
/// section.
pub open spec fn section_minimal(bytes: Seq<u8>, pos: int) -> bool {
    &&& minimal_at(bytes, pos + 1)
    &&& bytes[pos] == 0 ==> ({
        let size = leb_decode(bytes, pos + 1)->Ok_0.0;
        let start = pos + 1 + leb_decode(bytes, pos + 1)->Ok_0.1;
        minimal_at(bytes.subrange(start, start + size), 0)
    })
}

/// Every section from `pos` on is written as the encoder writes it.
pub open spec fn minimal_from(bytes: Seq<u8>, pos: int) -> bool
    decreases bytes.len() - pos,
{
    if pos < 0 || pos >= bytes.len() {
        true
    } else {
        match section_at(bytes, pos) {
            Err(e) => true,
            Ok((section, next)) => {
                proof {
                    lemma_leb_decode_bounds(bytes, pos + 1);
                }
                section_minimal(bytes, pos) && minimal_from(bytes, next)
            },
        }
    }
}

/// A section that is written as the encoder writes it is encoded to the
/// bytes that it was decoded from.
pub proof fn lemma_section_encodes_back(bytes: Seq<u8>, pos: int)
    requires
        0 <= pos < bytes.len(),
        section_at(bytes, pos) is Ok,
        section_minimal(bytes, pos),
    ensures
        ({
            let (section, next) = section_at(bytes, pos)->Ok_0;
            pos < next <= bytes.len() && encode_section(section) == bytes.subrange(pos, next)
        }),
{
    let (section, next) = section_at(bytes, pos)->Ok_0;
    let (size, n) = leb_decode(bytes, pos + 1)->Ok_0;
    let start = pos + 1 + n;
    let body = bytes.subrange(start, start + size);
    lemma_leb_decode_bounds(bytes, pos + 1);
    lemma_leb_shortest_is_minimal(bytes, pos + 1, 10);
    assert(bytes.subrange(pos + 1, pos + 1 + n) == leb_encode(size));
    if bytes[pos] == 0 {
        let (len, m) = leb_decode(body, 0)->Ok_0;
        lemma_leb_decode_bounds(body, 0);
        lemma_leb_shortest_is_minimal(body, 0, 10);
        assert(body.subrange(0, m as int) == leb_encode(len));
        let name = body.subrange(m as int, (m + len) as int);
        let data = body.subrange((m + len) as int, body.len() as int);
        assert(section_body(section) =~= leb_encode(len) + name + data);
        assert(leb_encode(len) + name + data =~= body);
    } else {
        assert(section_body(section) == body);
    }
    assert(encode_section(section) =~= seq![bytes[pos]] + bytes.subrange(pos + 1, pos + 1 + n)
        + body);
    assert(seq![bytes[pos]] + bytes.subrange(pos + 1, pos + 1 + n) + body =~= bytes.subrange(
        pos,
        next,
    ));
}

/// Sections that are written as the encoder writes them are encoded to the
/// bytes that they were decoded from.
pub proof fn lemma_sections_encode_back(bytes: Seq<u8>, pos: int)
    requires
        0 <= pos <= bytes.len(),
        sections_from(bytes, pos) is Ok,
        minimal_from(bytes, pos),
    ensures
        encode_sections(sections_from(bytes, pos)->Ok_0) == bytes.subrange(
            pos,
            bytes.len() as int,
        ),
    decreases bytes.len() - pos,
{
    if pos >= bytes.len() {
        assert(bytes.subrange(pos, bytes.len() as int) =~= Seq::<u8>::empty());
    } else {
        let (section, next) = section_at(bytes, pos)->Ok_0;
        lemma_section_encodes_back(bytes, pos);
        lemma_sections_encode_back(bytes, next);
        let rest = sections_from(bytes, next)->Ok_0;
        lemma_encode_sections_concat(seq![section], rest);
        lemma_encode_sections_one(section);
        assert(bytes.subrange(pos, next) + bytes.subrange(next, bytes.len() as int)
            =~= bytes.subrange(pos, bytes.len() as int));
    }
}

/// The round-trip law: a buffer that decodes, and in which every length is
/// written in minimal form, is reproduced byte for byte by encoding what it
/// decodes to.
pub proof fn lemma_decode_then_encode(bytes: Seq<u8>)
    requires
        decode_spec(bytes) is Ok,
        minimal_from(bytes, 8),
    ensures
        encode_spec(decode_spec(bytes)->Ok_0) == bytes,
{
    lemma_sections_encode_back(bytes, 8);
    assert(bytes.subrange(0, 8) =~= bytes.subrange(0, 4) + bytes.subrange(4, 8));
    assert(header() =~= header().subrange(0, 4) + header().subrange(4, 8));
    assert(bytes =~= bytes.subrange(0, 8) + bytes.subrange(8, bytes.len() as int));
}

/// The encoder writes every length in minimal form.
pub proof fn lemma_encoder_writes_minimal(prefix: Seq<u8>, sections: Seq<SectionView>)
    requires
        sections_wf(sections),
    ensures
        minimal_from(prefix + encode_sections(sections), prefix.len() as int),
    decreases sections.len(),
{
    let bytes = prefix + encode_sections(sections);
    let pos = prefix.len() as int;
    if sections.len() == 0 {
    } else {
        let first = sections[0];
        let rest = sections.subrange(1, sections.len() as int);
        assert(sections =~= seq![first] + rest);
        lemma_encode_sections_concat(seq![first], rest);
        lemma_encode_sections_one(first);
        let enc = encode_section(first);
        assert(bytes =~= prefix + enc + encode_sections(rest));
        assert(bytes.subrange(pos, pos + enc.len()) =~= enc);
        lemma_section_round_trip(bytes, pos, first);
        let body = section_body(first);
        let size_prefix = leb_encode(body.len());
        assert(bytes.subrange(pos + 1, pos + 1 + size_prefix.len()) =~= enc.subrange(
            1,
            1 + size_prefix.len() as int,
        ));
        assert(enc.subrange(1, 1 + size_prefix.len() as int) =~= size_prefix);
        lemma_leb_round_trip(bytes, pos + 1, body.len());
        let start = pos + 1 + size_prefix.len();
        assert(bytes.subrange(start, start + body.len()) =~= enc.subrange(
            1 + size_prefix.len() as int,
            enc.len() as int,
        ));
        assert(enc.subrange(1 + size_prefix.len() as int, enc.len() as int) =~= body);
        if let SectionView::Custom { name, data } = first {
            let name_prefix = leb_encode(name.len());
            assert(body.subrange(0, name_prefix.len() as int) =~= name_prefix);
            lemma_leb_round_trip(body, 0, name.len());
        }
        assert(section_minimal(bytes, pos));
        assert forall|i: int| 0 <= i < rest.len() implies (#[trigger] rest[i]).wf() by {
            assert(rest[i] == sections[i + 1]);
        }
        lemma_encoder_writes_minimal(prefix + enc, rest);
        assert(prefix + enc + encode_sections(rest) =~= (prefix + enc) + encode_sections(rest));
    }
}

/// Appends the bytes of `src` to `out`.
pub fn append_bytes(out: &mut Vec<u8>, src: &[u8])
    ensures
        final(out)@ == old(out)@ + src@,
{
    let mut i: usize = 0;
    while i < src.len()
        invariant
            i <= src@.len(),
            out@ == old(out)@ + src@.take(i as int),
        decreases src@.len() - i,
    {
        out.push(src[i]);
        proof {
            assert(src@.take(i as int).push(src@[i as int]) =~= src@.take(i + 1));
            assert(out@ =~= old(out)@ + src@.take(i + 1));
        }
        i += 1;
    }
    proof {
        assert(src@.take(src@.len() as int) =~= src@);
    }
}

/// The bytes of `src` from `from` up to `to`, in a vector of their own.
pub fn bytes_between(src: &[u8], from: usize, to: usize) -> (r: Vec<u8>)
    requires
        from <= to <= src@.len(),
    ensures
        r@ == src@.subrange(from as int, to as int),
{
    let mut out: Vec<u8> = Vec::new();
    append_bytes(&mut out, slice_subrange(src, from, to));
    proof {
        assert(out@ =~= src@.subrange(from as int, to as int));
    }
    out
}

fn length_error_at(e: LebError, offset: usize) -> (r: ParseError)
    ensures
        r == length_error(e, offset as int),
{
    match e {
        LebError::Truncated => ParseError { offset, reason: ParseErrorReason::TruncatedLength },
        LebError::Oversized => ParseError { offset, reason: ParseErrorReason::OversizedLeb },
    }
}

/// Builds the section that an identifier byte and a body stand for.
fn read_section_body(id: u8, body: &[u8], base: usize) -> (r: Result<Section, ParseError>)
    ensures
        match r {
            Ok(section) => section_from(id, body@, base as int) == Ok::<SectionView, ParseError>(
                section@,
            ),
            Err(e) => section_from(id, body@, base as int) == Err::<SectionView, ParseError>(e),
        },
{
    if id == 0 {
        match read_uleb128(body, 0) {
            Err(e) => Err(length_error_at(e, base)),
            Ok((len, n)) => {
                if len > (body.len() - n) as u64 {
                    Err(ParseError { offset: base, reason: ParseErrorReason::LengthOverrun })
                } else {
                    let name_end: usize = n + len as usize;
                    let name = bytes_between(body, n, name_end);
                    let data = bytes_between(body, name_end, body.len());
                    Ok(Section::Custom { name, data })
                }
            },
        }
    } else {
        let payload = bytes_between(body, 0, body.len());
        proof {
            assert(body@.subrange(0, body@.len() as int) =~= body@);
        }
        match SectionKind::from_id(id) {
            Some(kind) => Ok(Section::Standard { kind, payload }),
            None => Ok(Section::Unknown { id, payload }),
        }
    }
}

/// Reads the section that starts at `pos`.
fn read_section(bytes: &[u8], pos: usize) -> (r: Result<(Section, usize), ParseError>)
    requires
        pos < bytes@.len(),
    ensures
        match r {
            Ok((section, next)) => {
                &&& section_at(bytes@, pos as int) == Ok::<(SectionView, int), ParseError>(
                    (section@, next as int),
                )
                &&& pos < next <= bytes@.len()
                &&& section@.wf()
            },
            Err(e) => section_at(bytes@, pos as int) == Err::<(SectionView, int), ParseError>(e),
        },
{
    let total: usize = bytes.len();
    proof {
        lemma_section_at_bounds(bytes@, pos as int);
    }
    let id: u8 = bytes[pos];
    match read_uleb128(bytes, pos + 1) {
        Err(e) => Err(length_error_at(e, pos + 1)),
        Ok((size, n)) => {
            let start: usize = pos + 1 + n;
            if size > (total - start) as u64 {
                Err(ParseError { offset: pos + 1, reason: ParseErrorReason::LengthOverrun })
            } else {
                let end: usize = start + size as usize;
                match read_section_body(id, slice_subrange(bytes, start, end), start) {
                    Ok(section) => Ok((section, end)),
                    Err(e) => Err(e),
                }
            }
        },
    }
}

/// Decodes a module.
///
/// The header is checked first. Sections are then read until the buffer
/// ends; a section whose identifier is not known is kept as it is. Fails on a
/// header that is not the expected one, on a length prefix that the buffer
/// cuts short or that does not fit in 64 bits, and on a length that announces
/// more bytes than remain.
pub fn decode(bytes: &[u8]) -> (r: Result<Module, ParseError>)
    ensures
        match r {
            Ok(module) => decode_spec(bytes@) == Ok::<Seq<SectionView>, ParseError>(module@)
                && module.wf(),
            Err(e) => decode_spec(bytes@) == Err::<Seq<SectionView>, ParseError>(e),
        },
{
    if bytes.len() < 4 || bytes[0] != 0x00 || bytes[1] != 0x61 || bytes[2] != 0x73 || bytes[3]
        != 0x6d {
        proof {
            if bytes@.len() >= 4 {
                let magic = bytes@.subrange(0, 4);
                assert(magic[0] == bytes@[0] && magic[1] == bytes@[1] && magic[2] == bytes@[2]
                    && magic[3] == bytes@[3]);
                assert(header().subrange(0, 4)[0] == 0x00 && header().subrange(0, 4)[1] == 0x61
                    && header().subrange(0, 4)[2] == 0x73 && header().subrange(0, 4)[3] == 0x6d);
            }
        }
        return Err(ParseError { offset: 0, reason: ParseErrorReason::MalformedHeader });
    }
    proof {
        assert(bytes@.subrange(0, 4) =~= header().subrange(0, 4));
    }
    if bytes.len() < 8 || bytes[4] != 0x01 || bytes[5] != 0x00 || bytes[6] != 0x00 || bytes[7]
        != 0x00 {
        proof {
            if bytes@.len() >= 8 {
                let version = bytes@.subrange(4, 8);
                assert(version[0] == bytes@[4] && version[1] == bytes@[5] && version[2]
                    == bytes@[6] && version[3] == bytes@[7]);
                assert(header().subrange(4, 8)[0] == 0x01 && header().subrange(4, 8)[1] == 0x00
                    && header().subrange(4, 8)[2] == 0x00 && header().subrange(4, 8)[3] == 0x00);
            }
        }
        return Err(ParseError { offset: 4, reason: ParseErrorReason::MalformedHeader });
    }
    proof {
        assert(bytes@.subrange(4, 8) =~= header().subrange(4, 8));
    }
    let mut sections: Vec<Section> = Vec::new();
    let mut pos: usize = 8;
    while pos < bytes.len()
        invariant
            8 <= pos <= bytes@.len(),
            has_magic(bytes@),
            has_version(bytes@),
            sections_from(bytes@, 8) == prepend(
                Seq::new(sections@.len(), |i: int| sections@[i]@),
                sections_from(bytes@, pos as int),
            ),
            forall|i: int| 0 <= i < sections@.len() ==> (#[trigger] sections@[i])@.wf(),
        decreases bytes@.len() - pos,
    {
        let ghost before = Seq::new(sections@.len(), |i: int| sections@[i]@);
        match read_section(bytes, pos) {
            Err(e) => {
                return Err(e);
            },
            Ok((section, next)) => {
                proof {
                    let after = before.push(section@);
                    match sections_from(bytes@, next as int) {
                        Ok(more) => {
                            assert(before + (seq![section@] + more) =~= after + more);
                        },
                        Err(_) => {},
                    }
                }
                sections.push(section);
                proof {
                    assert(Seq::new(sections@.len(), |i: int| sections@[i]@) =~= before.push(
                        section@,
                    ));
                }
                pos = next;
            },
        }
    }
    let module = Module { sections };
    proof {
        assert(module@ + Seq::<SectionView>::empty() =~= module@);
    }
    Ok(module)
}

/// Appends one section: identifier, computed length, body.
pub fn write_section(out: &mut Vec<u8>, section: &Section)
    ensures
        final(out)@ == old(out)@ + encode_section(section@),
{
    match section {
        Section::Custom { name, data } => {
            let mut body: Vec<u8> = Vec::new();
            write_uleb128(&mut body, name.len() as u64);
            append_bytes(&mut body, name.as_slice());
            append_bytes(&mut body, data.as_slice());
            proof {
                assert(body@ =~= section_body(section@));
            }
            out.push(0);
            write_uleb128(out, body.len() as u64);
            append_bytes(out, body.as_slice());
            proof {
                assert(out@ =~= old(out)@ + encode_section(section@));
            }
        },
        Section::Standard { kind, payload } => {
            out.push(kind.id());
            write_uleb128(out, payload.len() as u64);
            append_bytes(out, payload.as_slice());
            proof {
                assert(out@ =~= old(out)@ + encode_section(section@));
            }
        },
        Section::Unknown { id, payload } => {
            out.push(*id);
            write_uleb128(out, payload.len() as u64);
            append_bytes(out, payload.as_slice());
            proof {
                assert(out@ =~= old(out)@ + encode_section(section@));
            }
        },
    }
}

/// Encodes a module: the header, then each section in the order in which the
/// module holds it. Every length field is computed from what is written.
pub fn encode(module: &Module) -> (r: Vec<u8>)
    ensures
        r@ == encode_spec(module@),
{
    let mut out: Vec<u8> = Vec::new();
    out.push(0x00);
    out.push(0x61);
    out.push(0x73);
    out.push(0x6d);
    out.push(0x01);
    out.push(0x00);
    out.push(0x00);
    out.push(0x00);
    proof {
        assert(out@ =~= header());
        assert(module@.take(0) =~= Seq::<SectionView>::empty());
        assert(out@ =~= header() + encode_sections(module@.take(0)));
    }
    let mut i: usize = 0;
    while i < module.sections.len()
        invariant
            i <= module.sections@.len(),
            out@ == header() + encode_sections(module@.take(i as int)),
        decreases module.sections@.len() - i,
    {
        write_section(&mut out, &module.sections[i]);
        proof {
            let next = module@.take(i + 1);
            assert(next.drop_last() =~= module@.take(i as int));
            assert(next.last() == module.sections@[i as int]@);
            assert(out@ =~= header() + encode_sections(next));
        }
        i += 1;
    }
    proof {
        assert(module@.take(module@.len() as int) =~= module@);
    }
    out
}

} // verus!
