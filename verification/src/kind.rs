//! Syntax kinds: the user's node and token kinds and their raw integer form.

use vstd::prelude::*;
use vstd::string::StringSliceAdditionalSpecFns;

use crate::interning::traits::TokenData;
use crate::utf8::str_from_utf8;

verus! {

/// The raw kind of a node or token, as the user's syntax maps it to an integer.
#[derive(Clone, Copy, Debug, PartialEq, Eq, Hash, PartialOrd, Ord)]
pub struct RawSyntaxKind(pub u32);

/// The kinds of nodes and tokens of a language, as the user defines them.
///
/// Implementations map each kind to a raw integer and back, name the payload
/// type of their tokens, and may fix the data of kinds that always stand for
/// the same data (such as `+`).
pub trait Syntax: Sized + Copy {
    /// The payload that tokens of this syntax carry, such as `str` or `[u8]`.
    type Data: TokenData + ?Sized + 'static;

    /// The raw integer of this kind; a verified implementation states it.
    closed spec fn spec_into_raw(self) -> u32 {
        vstd::pervasive::arbitrary()
    }

    /// The bytes this kind always stands for, if any; a verified
    /// implementation states them.
    closed spec fn spec_static_data(self) -> Option<Seq<u8>> {
        vstd::pervasive::arbitrary()
    }

    /// The kind that a raw integer stands for; a verified implementation
    /// states it.
    closed spec fn spec_from_raw(raw: u32) -> Self {
        vstd::pervasive::arbitrary()
    }

    /// Converts a raw kind back into the user's kind. The raw form of a kind
    /// converts back to a kind with that raw form; what other raw values give
    /// is up to the implementation.
    fn from_raw(raw: RawSyntaxKind) -> (k: Self)
        ensures
            k == Self::spec_from_raw(raw.0),
            (exists|other: Self| other.spec_into_raw() == raw.0) ==> k.spec_into_raw() == raw.0,
    ;

    /// Converts this kind into its raw form.
    fn into_raw(self) -> (r: RawSyntaxKind)
        ensures
            r.0 == self.spec_into_raw(),
    ;

    /// The canonical bytes of a payload.
    fn data_to_bytes(data: &Self::Data) -> (r: &[u8])
        ensures
            r@ == data.spec_data_bytes(),
    ;

    /// The payload that `data` stand for, where they decode as one.
    fn data_from_bytes(data: &[u8]) -> (r: Option<&Self::Data>)
        ensures
            r is Some <==> <Self::Data as TokenData>::spec_decode(data@) is Ok,
            r matches Some(d) ==> d.spec_data_bytes() == data@,
    ;

    /// The payload this kind always stands for, if any.
    fn static_data(self) -> (r: Option<&'static Self::Data>)
        ensures
            r is Some <==> self.spec_static_data() is Some,
            r matches Some(d) ==> self.spec_static_data() == Some(d.spec_data_bytes()),
    ;

    /// The bytes this kind always stands for, if any.
    fn static_bytes(self) -> (r: Option<&'static [u8]>)
        ensures
            r is Some <==> self.spec_static_data() is Some,
            r matches Some(d) ==> self.spec_static_data() == Some(d@),
    {
        match self.static_data() {
            Some(d) => Some(Self::data_to_bytes(d)),
            None => None,
        }
    }

    /// The text this kind always stands for, if it has static data that is valid UTF-8.
    fn static_text(self) -> (r: Option<&'static str>)
        ensures
            r is Some <==> (self.spec_static_data() matches Some(d) && vstd::utf8::valid_utf8(d)),
            r matches Some(s) ==> self.spec_static_data() == Some(s.spec_bytes()),
    {
        match self.static_bytes() {
            Some(data) => str_from_utf8(data),
            None => None,
        }
    }
}

/// Whether `bytes` decode as a payload of the syntax `S`.
pub open spec fn data_decodes<S: Syntax>(bytes: Seq<u8>) -> bool {
    <S::Data as TokenData>::spec_decode(bytes) is Ok
}

/// Whether `raw` converts to a kind of `S` whose raw form is `raw` again, as
/// the raw form of every kind does.
pub open spec fn raw_is_kind<S: Syntax>(raw: u32) -> bool {
    S::spec_from_raw(raw).spec_into_raw() == raw
}

} // verus!
