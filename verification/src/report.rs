//! Errors as text, for whoever shows them to a person.

use crate::composer::{LinkError, LinkErrorView};
use crate::layout::Refusal;
use crate::module::{views, ParseError, ParseErrorReason};
use crate::text::{decimal, push_decimal};
use crate::utils::{lossy_text, utf8_lossy};
use vstd::prelude::*;
use vstd::string::StringExecFns;

verus! {

/// The words for a reason.
pub open spec fn reason_text(reason: ParseErrorReason) -> Seq<char> {
    match reason {
        ParseErrorReason::MalformedHeader => "malformed header"@,
        ParseErrorReason::TruncatedLength => "truncated length"@,
        ParseErrorReason::OversizedLeb => "oversized LEB128 integer"@,
        ParseErrorReason::LengthOverrun => "length overruns the buffer"@,
        ParseErrorReason::UnexpectedEnd => "unexpected end of section"@,
        ParseErrorReason::InvalidEntry => "invalid entry"@,
        ParseErrorReason::OutOfRange => "count or index out of range"@,
        ParseErrorReason::TrailingBytes => "bytes behind the last entry"@,
        ParseErrorReason::Unsupported => "unsupported encoding"@,
    }
}

/// The words for a refusal.
pub open spec fn refusal_text(reason: Refusal) -> Seq<char> {
    match reason {
        Refusal::UnknownSection => "a section of unknown kind"@,
        Refusal::RepeatedSection => "a repeated section"@,
        Refusal::TagImport => "an imported tag"@,
        Refusal::SecondStart => "a second start function"@,
        Refusal::EndlessBinding => "an import bound to an item that no component defines"@,
        Refusal::RepeatedExport => "an export name that an earlier component uses"@,
        Refusal::KindMismatch => "an import bound to an export of another kind"@,
    }
}

/// The text of a parse error: the reason and the offset.
pub open spec fn parse_error_text(error: ParseError) -> Seq<char> {
    reason_text(error.reason) + " at offset "@ + decimal(error.offset as nat)
}

/// `names` one after the other, with a comma and a space between them.
pub open spec fn joined(names: Seq<Seq<char>>) -> Seq<char>
    decreases names.len(),
{
    if names.len() == 0 {
        Seq::empty()
    } else if names.len() == 1 {
        names[0]
    } else {
        joined(names.drop_last()) + ", "@ + names.last()
    }
}

/// The names of imports as text.
pub open spec fn lossy_names(names: Seq<Seq<u8>>) -> Seq<Seq<char>> {
    Seq::new(names.len(), |i: int| utf8_lossy(names[i]))
}

/// The text of a link error.
pub open spec fn link_error_text(error: LinkErrorView) -> Seq<char> {
    match error {
        LinkErrorView::NoComponents => "No components to compose"@,
        LinkErrorView::AmbiguousImport(names) => "ambiguous imports: "@ + joined(
            lossy_names(names),
        ),
        LinkErrorView::UnresolvedConnection(names) => "unresolved connections: "@ + joined(names),
        LinkErrorView::Malformed { component, error } => "component "@ + decimal(component as nat)
            + " cannot be read: "@ + parse_error_text(error),
        LinkErrorView::Unsupported { component, reason } => "component "@ + decimal(
            component as nat,
        ) + " is not supported: "@ + refusal_text(reason),
        LinkErrorView::TooManyItems => "too many items for one module"@,
    }
}

fn reason_words(reason: ParseErrorReason) -> (r: &'static str)
    ensures
        r@ == reason_text(reason),
{
    match reason {
        ParseErrorReason::MalformedHeader => "malformed header",
        ParseErrorReason::TruncatedLength => "truncated length",
        ParseErrorReason::OversizedLeb => "oversized LEB128 integer",
        ParseErrorReason::LengthOverrun => "length overruns the buffer",
        ParseErrorReason::UnexpectedEnd => "unexpected end of section",
        ParseErrorReason::InvalidEntry => "invalid entry",
        ParseErrorReason::OutOfRange => "count or index out of range",
        ParseErrorReason::TrailingBytes => "bytes behind the last entry",
        ParseErrorReason::Unsupported => "unsupported encoding",
    }
}

fn refusal_words(reason: Refusal) -> (r: &'static str)
    ensures
        r@ == refusal_text(reason),
{
    match reason {
        Refusal::UnknownSection => "a section of unknown kind",
        Refusal::RepeatedSection => "a repeated section",
        Refusal::TagImport => "an imported tag",
        Refusal::SecondStart => "a second start function",
        Refusal::EndlessBinding => "an import bound to an item that no component defines",
        Refusal::RepeatedExport => "an export name that an earlier component uses",
        Refusal::KindMismatch => "an import bound to an export of another kind",
    }
}

fn push_parse_error(out: &mut String, error: &ParseError)
    ensures
        final(out)@ == old(out)@ + parse_error_text(*error),
{
    out.append(reason_words(error.reason));
    out.append(" at offset ");
    push_decimal(out, error.offset as u64);
    proof {
        assert(out@ =~= old(out)@ + parse_error_text(*error));
    }
}

impl ParseError {
    /// The error as text: the reason and the offset.
    pub fn message(&self) -> (r: String)
        ensures
            r@ == parse_error_text(*self),
    {
        let mut out = String::new();
        push_parse_error(&mut out, self);
        proof {
            assert(out@ =~= parse_error_text(*self));
        }
        out
    }
}

fn push_joined(out: &mut String, names: &Vec<String>)
    ensures
        final(out)@ == old(out)@ + joined(views(names@)),
{
    let ghost all = views(names@);
    let mut i: usize = 0;
    proof {
        assert(all.take(0) =~= Seq::<Seq<char>>::empty());
        assert(out@ =~= old(out)@ + joined(all.take(0)));
    }
    while i < names.len()
        invariant
            i <= names@.len(),
            all == views(names@),
            out@ == old(out)@ + joined(all.take(i as int)),
        decreases names@.len() - i,
    {
        proof {
            let next = all.take(i + 1);
            assert(next.drop_last() =~= all.take(i as int));
            assert(next.last() == names@[i as int]@);
        }
        if i > 0 {
            out.append(", ");
        }
        out.append(names[i].as_str());
        proof {
            assert(out@ =~= old(out)@ + joined(all.take(i + 1)));
        }
        i += 1;
    }
    proof {
        assert(all.take(all.len() as int) =~= all);
    }
}

fn lossy_all(names: &Vec<Vec<u8>>) -> (r: Vec<String>)
    ensures
        views(r@) == lossy_names(views(names@)),
{
    let mut out: Vec<String> = Vec::new();
    let mut i: usize = 0;
    while i < names.len()
        invariant
            i <= names@.len(),
            out@.len() == i,
            forall|h: int| 0 <= h < i ==> (#[trigger] out@[h])@ == utf8_lossy(names@[h]@),
        decreases names@.len() - i,
    {
        out.push(lossy_text(names[i].as_slice()));
        i += 1;
    }
    proof {
        assert(views(out@) =~= lossy_names(views(names@)));
    }
    out
}

impl LinkError {
    /// The error as text.
    pub fn message(&self) -> (r: String)
        ensures
            r@ == link_error_text(self@),
    {
        let mut out = String::new();
        match self {
            LinkError::NoComponents => {
                out.append("No components to compose");
            },
            LinkError::AmbiguousImport(names) => {
                out.append("ambiguous imports: ");
                push_joined(&mut out, &lossy_all(names));
            },
            LinkError::UnresolvedConnection(names) => {
                out.append("unresolved connections: ");
                push_joined(&mut out, names);
            },
            LinkError::Malformed { component, error } => {
                out.append("component ");
                push_decimal(&mut out, *component as u64);
                out.append(" cannot be read: ");
                push_parse_error(&mut out, error);
            },
            LinkError::Unsupported { component, reason } => {
                out.append("component ");
                push_decimal(&mut out, *component as u64);
                out.append(" is not supported: ");
                out.append(refusal_words(*reason));
            },
            LinkError::TooManyItems => {
                out.append("too many items for one module");
            },
        }
        proof {
            assert(out@ =~= link_error_text(self@));
        }
        out
    }
}

} // verus!
