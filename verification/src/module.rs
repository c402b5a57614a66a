//! The structural model of a module: a fixed header followed by an ordered
//! sequence of tagged, length-prefixed sections.

use crate::leb128::leb_encode;
use vstd::prelude::*;

verus! {

/// The structural kinds of section that the format defines, besides custom
/// sections.
#[derive(Clone, Copy, Debug, PartialEq, Eq, Hash, Structural)]
pub enum SectionKind {
    Type,
    Import,
    Function,
    Table,
    Memory,
    Global,
    Export,
    Start,
    Element,
    Code,
    Data,
}

impl SectionKind {
    /// The identifier byte that introduces a section of this kind.
    pub open spec fn id_spec(self) -> u8 {
        match self {
            SectionKind::Type => 1,
            SectionKind::Import => 2,
            SectionKind::Function => 3,
            SectionKind::Table => 4,
            SectionKind::Memory => 5,
            SectionKind::Global => 6,
            SectionKind::Export => 7,
            SectionKind::Start => 8,
            SectionKind::Element => 9,
            SectionKind::Code => 10,
            SectionKind::Data => 11,
        }
    }

    /// The kind that an identifier byte stands for, if it stands for one.
    pub open spec fn of_id(id: u8) -> Option<SectionKind> {
        if id == 1 {
            Some(SectionKind::Type)
        } else if id == 2 {
            Some(SectionKind::Import)
        } else if id == 3 {
            Some(SectionKind::Function)
        } else if id == 4 {
            Some(SectionKind::Table)
        } else if id == 5 {
            Some(SectionKind::Memory)
        } else if id == 6 {
            Some(SectionKind::Global)
        } else if id == 7 {
            Some(SectionKind::Export)
        } else if id == 8 {
            Some(SectionKind::Start)
        } else if id == 9 {
            Some(SectionKind::Element)
        } else if id == 10 {
            Some(SectionKind::Code)
        } else if id == 11 {
            Some(SectionKind::Data)
        } else {
            None
        }
    }

    /// The identifier byte that introduces a section of this kind.
    #[verifier::when_used_as_spec(id_spec)]
    pub fn id(self) -> (r: u8)
        ensures
            r == self.id_spec(),
            1 <= r <= 11,
            SectionKind::of_id(r) == Some(self),
    {
        match self {
            SectionKind::Type => 1,
            SectionKind::Import => 2,
            SectionKind::Function => 3,
            SectionKind::Table => 4,
            SectionKind::Memory => 5,
            SectionKind::Global => 6,
            SectionKind::Export => 7,
            SectionKind::Start => 8,
            SectionKind::Element => 9,
            SectionKind::Code => 10,
            SectionKind::Data => 11,
        }
    }

    /// The kind that an identifier byte stands for, if it stands for one.
    pub fn from_id(id: u8) -> (r: Option<SectionKind>)
        ensures
            r == SectionKind::of_id(id),
            r matches Some(k) ==> k.id_spec() == id,
            r is None <==> (id == 0 || id > 11),
    {
        match id {
            1 => Some(SectionKind::Type),
            2 => Some(SectionKind::Import),
            3 => Some(SectionKind::Function),
            4 => Some(SectionKind::Table),
            5 => Some(SectionKind::Memory),
            6 => Some(SectionKind::Global),
            7 => Some(SectionKind::Export),
            8 => Some(SectionKind::Start),
            9 => Some(SectionKind::Element),
            10 => Some(SectionKind::Code),
            11 => Some(SectionKind::Data),
            _ => None,
        }
    }
}

/// One section of a module.
#[derive(Clone, Debug, PartialEq, Eq)]
pub enum Section {
    /// A named, tool-defined section. `data` is what follows the name.
    Custom { name: Vec<u8>, data: Vec<u8> },
    /// A section of one of the structural kinds, with its raw payload.
    Standard { kind: SectionKind, payload: Vec<u8> },
    /// A section whose identifier byte names no kind known here. It is kept
    /// as it was found.
    Unknown { id: u8, payload: Vec<u8> },
}

/// The mathematical value of a [`Section`].
pub enum SectionView {
    Custom { name: Seq<u8>, data: Seq<u8> },
    Standard { kind: SectionKind, payload: Seq<u8> },
    Unknown { id: u8, payload: Seq<u8> },
}

impl SectionView {
    /// The identifier byte that introduces the section.
    pub open spec fn id(self) -> u8 {
        match self {
            SectionView::Custom { .. } => 0,
            SectionView::Standard { kind, .. } => kind.id_spec(),
            SectionView::Unknown { id, .. } => id,
        }
    }

    /// The section is a custom section.
    pub open spec fn is_custom(self) -> bool {
        self is Custom
    }

    /// An unknown section carries an identifier that names no kind, and every
    /// length of the section can be written as a 64-bit integer.
    pub open spec fn wf(self) -> bool {
        match self {
            SectionView::Custom { name, data } => leb_encode(name.len()).len() + name.len()
                + data.len() <= u64::MAX,
            SectionView::Standard { kind, payload } => payload.len() <= u64::MAX,
            SectionView::Unknown { id, payload } => id > 11 && payload.len() <= u64::MAX,
        }
    }
}

impl View for Section {
    type V = SectionView;

    open spec fn view(&self) -> SectionView {
        match self {
            Section::Custom { name, data } => SectionView::Custom { name: name@, data: data@ },
            Section::Standard { kind, payload } => SectionView::Standard {
                kind: *kind,
                payload: payload@,
            },
            Section::Unknown { id, payload } => SectionView::Unknown { id: *id, payload: payload@ },
        }
    }
}

/// Copies the bytes of `src` into a vector of their own.
pub fn copy_bytes(src: &Vec<u8>) -> (r: Vec<u8>)
    ensures
        r@ == src@,
{
    let mut out: Vec<u8> = Vec::new();
    let mut i: usize = 0;
    while i < src.len()
        invariant
            i <= src.len(),
            out@ == src@.take(i as int),
        decreases src.len() - i,
    {
        out.push(src[i]);
        proof {
            assert(src@.take(i as int).push(src@[i as int]) =~= src@.take(i + 1));
        }
        i += 1;
    }
    proof {
        assert(src@.take(src@.len() as int) =~= src@);
    }
    out
}

impl Section {
    /// Builds a custom section.
    pub fn custom(name: Vec<u8>, data: Vec<u8>) -> (r: Section)
        ensures
            r@ == (SectionView::Custom { name: name@, data: data@ }),
    {
        Section::Custom { name, data }
    }

    /// Builds a section of a structural kind.
    pub fn standard(kind: SectionKind, payload: Vec<u8>) -> (r: Section)
        ensures
            r@ == (SectionView::Standard { kind, payload: payload@ }),
    {
        Section::Standard { kind, payload }
    }

    /// The identifier byte that introduces the section.
    pub fn id(&self) -> (r: u8)
        ensures
            r == self@.id(),
    {
        match self {
            Section::Custom { .. } => 0,
            Section::Standard { kind, .. } => kind.id(),
            Section::Unknown { id, .. } => *id,
        }
    }

    /// An independent copy of the section.
    pub fn duplicate(&self) -> (r: Section)
        ensures
            r@ == self@,
    {
        match self {
            Section::Custom { name, data } => Section::Custom {
                name: copy_bytes(name),
                data: copy_bytes(data),
            },
            Section::Standard { kind, payload } => Section::Standard {
                kind: *kind,
                payload: copy_bytes(payload),
            },
            Section::Unknown { id, payload } => Section::Unknown {
                id: *id,
                payload: copy_bytes(payload),
            },
        }
    }
}

/// A module: the fixed header is implied, the sections are held in the order
/// in which they are written. The format asks for at most one section of
/// each structural kind; the type holds whatever a buffer held, and the
/// catalog tells whether the kinds are unique.
#[derive(Clone, Debug, PartialEq, Eq)]
pub struct Module {
    pub sections: Vec<Section>,
}

impl View for Module {
    type V = Seq<SectionView>;

    open spec fn view(&self) -> Seq<SectionView> {
        Seq::new(self.sections@.len(), |i: int| self.sections@[i]@)
    }
}

/// The mathematical values of a sequence of items, one by one.
pub open spec fn views<T: View>(items: Seq<T>) -> Seq<T::V> {
    Seq::new(items.len(), |i: int| items[i]@)
}

/// Every section of the sequence is well formed.
pub open spec fn sections_wf(sections: Seq<SectionView>) -> bool {
    forall|i: int| 0 <= i < sections.len() ==> (#[trigger] sections[i]).wf()
}

impl Module {
    /// Every section of the module is well formed.
    pub open spec fn wf(&self) -> bool {
        sections_wf(self@)
    }

    /// A module without sections.
    pub fn new() -> (r: Module)
        ensures
            r@ == Seq::<SectionView>::empty(),
    {
        let m = Module { sections: Vec::new() };
        proof {
            assert(m@ =~= Seq::<SectionView>::empty());
        }
        m
    }

    /// A module that holds the given sections in the given order.
    pub fn from_sections(sections: Vec<Section>) -> (r: Module)
        ensures
            r.sections == sections,
    {
        Module { sections }
    }

    /// The number of sections.
    pub fn len(&self) -> (r: usize)
        ensures
            r == self@.len(),
    {
        self.sections.len()
    }
}

/// Where and why decoding stopped.
#[derive(Clone, Copy, Debug, PartialEq, Eq, Structural)]
pub struct ParseError {
    /// The offset of the field that could not be read.
    pub offset: usize,
    pub reason: ParseErrorReason,
}

/// Why decoding stopped.
#[derive(Clone, Copy, Debug, PartialEq, Eq, Structural)]
pub enum ParseErrorReason {
    /// The first eight bytes are not the expected magic and version.
    MalformedHeader,
    /// The buffer ends inside a length prefix.
    TruncatedLength,
    /// A variable-length integer does not fit in 64 bits.
    OversizedLeb,
    /// A length prefix announces more bytes than remain.
    LengthOverrun,
    /// A section ends inside one of its entries.
    UnexpectedEnd,
    /// A byte that selects among alternatives holds none of them.
    InvalidEntry,
    /// A count or an index does not fit in 32 bits.
    OutOfRange,
    /// A section holds bytes behind its last entry.
    TrailingBytes,
    /// The encoding is valid but uses a feature that is not handled here.
    Unsupported,
}

} // verus!
