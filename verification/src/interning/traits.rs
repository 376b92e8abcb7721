//! The interfaces of interners: keys, token payloads, resolving and interning.

use vstd::prelude::*;
use vstd::string::{StringExecFns, StringSliceAdditionalSpecFns};
use vstd::utf8::{encode_utf8, valid_utf8};

use crate::display::{decimal, push_decimal};
use crate::utf8::{lemma_str_chars, str_from_utf8};

verus! {

/// Keys of an interner, which convert to and from `u32` without loss.
pub trait InternKey: Copy {
    /// The raw form of this key.
    spec fn spec_into_u32(self) -> u32;

    /// Whether `raw` is the raw form of a key.
    spec fn spec_is_key(raw: u32) -> bool;

    /// The key whose raw form is `raw`.
    spec fn spec_from_u32(raw: u32) -> Self;

    /// Converts this key into its raw form.
    fn into_u32(self) -> (r: u32)
        ensures
            r == self.spec_into_u32(),
            Self::spec_is_key(r),
    ;

    /// Reconstructs a key from its raw form, or `None` where `key` is no key.
    fn try_from_u32(key: u32) -> (r: Option<Self>)
        ensures
            r == (if Self::spec_is_key(key) { Some(Self::spec_from_u32(key)) } else { None }),
    ;

    /// Going from a key to `u32` and back gives the same key.
    proof fn lemma_key_roundtrip(k: Self)
        requires
            Self::spec_is_key(k.spec_into_u32()),
        ensures
            Self::spec_from_u32(k.spec_into_u32()) == k,
    ;

    /// Going from `u32` to a key and back gives the same `u32`.
    proof fn lemma_u32_roundtrip(raw: u32)
        requires
            Self::spec_is_key(raw),
        ensures
            Self::spec_from_u32(raw).spec_into_u32() == raw,
    ;
}

/// Why bytes could not be decoded as a token payload.
#[derive(Debug, Clone, PartialEq, Eq)]
pub enum TokenDataError {
    /// The bytes were not valid UTF-8.
    InvalidUtf8,
    /// The bytes did not have the size of the payload type.
    InvalidSize { expected: usize, actual: usize },
}

impl TokenDataError {
    /// The message describing this error.
    pub fn message(&self) -> (r: String)
        ensures
            r@ == token_data_error_message(*self),
    {
        match self {
            TokenDataError::InvalidUtf8 => {
                proof {
                    reveal_strlit("invalid UTF-8 token data");
                }
                String::from_str("invalid UTF-8 token data")
            },
            TokenDataError::InvalidSize { expected, actual } => {
                proof {
                    reveal_strlit("invalid token data size: expected ");
                    reveal_strlit(" bytes, got ");
                }
                let mut out = String::from_str("invalid token data size: expected ");
                push_decimal(&mut out, *expected as u64);
                out.append(" bytes, got ");
                push_decimal(&mut out, *actual as u64);
                out
            },
        }
    }
}

/// The message of a token data error.
pub open spec fn token_data_error_message(e: TokenDataError) -> Seq<char> {
    match e {
        TokenDataError::InvalidUtf8 => "invalid UTF-8 token data"@,
        TokenDataError::InvalidSize { expected, actual } => "invalid token data size: expected "@ + decimal(
            expected as nat,
        ) + " bytes, got "@ + decimal(actual as nat),
    }
}

/// A payload that tokens can carry, with canonical bytes.
pub trait TokenData {
    /// The owned form of the payload.
    type Owned;

    /// The canonical bytes of this payload.
    spec fn spec_data_bytes(&self) -> Seq<u8>;

    /// The canonical bytes of an owned payload.
    spec fn spec_owned_bytes(o: Self::Owned) -> Seq<u8>;

    /// Whether `bytes` decode as a payload, and else why not.
    spec fn spec_decode(bytes: Seq<u8>) -> Result<(), TokenDataError>;

    /// The canonical bytes of this payload.
    fn as_bytes(&self) -> (r: &[u8])
        ensures
            r@ == self.spec_data_bytes(),
    ;

    /// Rebuilds an owned payload from canonical bytes.
    fn from_bytes(bytes: &[u8]) -> (r: Result<Self::Owned, TokenDataError>)
        ensures
            r is Ok <==> Self::spec_decode(bytes@) is Ok,
            r matches Ok(o) ==> Self::spec_owned_bytes(o) == bytes@,
            r matches Err(e) ==> Self::spec_decode(bytes@) == Err::<(), TokenDataError>(e),
    ;

    /// Borrows an owned payload.
    fn borrow_owned(o: &Self::Owned) -> (r: &Self)
        ensures
            r.spec_data_bytes() == Self::spec_owned_bytes(*o),
    ;
}

impl TokenData for str {
    type Owned = String;

    open spec fn spec_data_bytes(&self) -> Seq<u8> {
        encode_utf8(self@)
    }

    open spec fn spec_owned_bytes(o: String) -> Seq<u8> {
        encode_utf8(o@)
    }

    open spec fn spec_decode(bytes: Seq<u8>) -> Result<(), TokenDataError> {
        if valid_utf8(bytes) {
            Ok(())
        } else {
            Err(TokenDataError::InvalidUtf8)
        }
    }

    fn as_bytes(&self) -> (r: &[u8]) {
        str::as_bytes(self)
    }

    fn from_bytes(bytes: &[u8]) -> (r: Result<String, TokenDataError>) {
        match str_from_utf8(bytes) {
            Some(s) => {
                proof {
                    lemma_str_chars(s);
                }
                Ok(s.to_owned())
            },
            None => Err(TokenDataError::InvalidUtf8),
        }
    }

    fn borrow_owned(o: &String) -> (r: &str) {
        o.as_str()
    }
}

impl TokenData for [u8] {
    type Owned = Vec<u8>;

    open spec fn spec_data_bytes(&self) -> Seq<u8> {
        self@
    }

    open spec fn spec_owned_bytes(o: Vec<u8>) -> Seq<u8> {
        o@
    }

    open spec fn spec_decode(bytes: Seq<u8>) -> Result<(), TokenDataError> {
        Ok(())
    }

    fn as_bytes(&self) -> (r: &[u8]) {
        self
    }

    fn from_bytes(bytes: &[u8]) -> (r: Result<Vec<u8>, TokenDataError>) {
        Ok(vstd::slice::slice_to_vec(bytes))
    }

    fn borrow_owned(o: &Vec<u8>) -> (r: &[u8]) {
        o.as_slice()
    }
}

/// The read-only part of an interner: resolving keys to their payloads.
pub trait Resolver<Key: InternKey, Data: TokenData + ?Sized> {
    /// The bytes of the payload interned under `key`, if any.
    spec fn spec_lookup(&self, key: Key) -> Option<Seq<u8>>;

    /// The payload interned under `key`, if any.
    fn try_resolve(&self, key: Key) -> (r: Option<&Data>)
        ensures
            r is Some <==> self.spec_lookup(key) is Some,
            r matches Some(d) ==> self.spec_lookup(key) == Some(d.spec_data_bytes()),
    ;

    /// The payload interned under `key`, which must be there.
    fn resolve(&self, key: Key) -> (r: &Data)
        requires
            self.spec_lookup(key) is Some,
        ensures
            self.spec_lookup(key) == Some(r.spec_data_bytes()),
    {
        match self.try_resolve(key) {
            Some(d) => d,
            None => vstd::pervasive::unreached(),
        }
    }
}

impl<'r, Key: InternKey, Data: TokenData + ?Sized, R: Resolver<Key, Data>> Resolver<Key, Data> for &'r R {
    open spec fn spec_lookup(&self, key: Key) -> Option<Seq<u8>> {
        (**self).spec_lookup(key)
    }

    fn try_resolve(&self, key: Key) -> (r: Option<&Data>) {
        (**self).try_resolve(key)
    }
}

impl<'r, Key: InternKey, Data: TokenData + ?Sized, R: Resolver<Key, Data>> Resolver<Key, Data> for &'r mut R {
    open spec fn spec_lookup(&self, key: Key) -> Option<Seq<u8>> {
        (**self).spec_lookup(key)
    }

    fn try_resolve(&self, key: Key) -> (r: Option<&Data>) {
        (**self).try_resolve(key)
    }
}

/// What interning `bytes` does to an interner: it succeeds exactly when `can`
/// (whether the interner could take them) holds, keeps every earlier key and
/// its payload, gives back the earlier key of equal bytes, and otherwise a key
/// for the bytes.
pub open spec fn intern_outcome<Key: InternKey, Data: TokenData + ?Sized, R: Resolver<Key, Data>, E>(
    before: R,
    after: R,
    can: bool,
    bytes: Seq<u8>,
    r: Result<Key, E>,
) -> bool {
    &&& r is Ok <==> can
    &&& r matches Ok(k) ==> after.spec_lookup(k) == Some(bytes)
    &&& forall|k: Key| #[trigger] before.spec_lookup(k) is Some ==> after.spec_lookup(k) == before.spec_lookup(k)
    &&& forall|k: Key| #[trigger] before.spec_lookup(k) == Some(bytes) ==> r == Ok::<Key, E>(k)
}

/// Interning equal bytes a second time gives back the key of the first time,
/// and resolving that key gives back the bytes.
pub proof fn lemma_intern_twice<Key: InternKey, Data: TokenData + ?Sized, R: Resolver<Key, Data>, E>(
    first: R,
    second: R,
    third: R,
    can1: bool,
    can2: bool,
    bytes: Seq<u8>,
    k: Key,
    r: Result<Key, E>,
)
    requires
        intern_outcome::<Key, Data, R, E>(first, second, can1, bytes, Ok::<Key, E>(k)),
        intern_outcome::<Key, Data, R, E>(second, third, can2, bytes, r),
    ensures
        r == Ok::<Key, E>(k),
        third.spec_lookup(k) == Some(bytes),
{
    assert(second.spec_lookup(k) == Some(bytes));
}

/// Interning two different byte strings, one after the other, gives
/// different keys, and both keys still resolve to their bytes.
pub proof fn lemma_intern_distinct<Key: InternKey, Data: TokenData + ?Sized, R: Resolver<Key, Data>, E>(
    first: R,
    second: R,
    third: R,
    can1: bool,
    can2: bool,
    a: Seq<u8>,
    b: Seq<u8>,
    ka: Key,
    kb: Key,
)
    requires
        intern_outcome::<Key, Data, R, E>(first, second, can1, a, Ok::<Key, E>(ka)),
        intern_outcome::<Key, Data, R, E>(second, third, can2, b, Ok::<Key, E>(kb)),
        a != b,
    ensures
        ka != kb,
        third.spec_lookup(ka) == Some(a),
        third.spec_lookup(kb) == Some(b),
{
    assert(second.spec_lookup(ka) is Some);
}

/// A full interner: interns payloads, returning keys, and resolves keys.
pub trait Interner<Key: InternKey, Data: TokenData + ?Sized>: Resolver<Key, Data> + Sized {
    /// Why interning may fail.
    type Error;

    /// Whether interning `bytes` succeeds.
    spec fn spec_can_intern(&self, bytes: Seq<u8>) -> bool;

    /// Interns `data` and returns its key; equal data gets the earlier key.
    fn try_get_or_intern(&mut self, data: &Data) -> (r: Result<Key, Self::Error>)
        ensures
            intern_outcome::<Key, Data, Self, Self::Error>(*old(self), *final(self), old(self).spec_can_intern(data.spec_data_bytes()), data.spec_data_bytes(), r),
    ;

    /// Interns canonical bytes and returns their key; equal bytes get the earlier key.
    fn try_get_or_intern_bytes(&mut self, bytes: &[u8]) -> (r: Result<Key, Self::Error>)
        ensures
            intern_outcome::<Key, Data, Self, Self::Error>(*old(self), *final(self), old(self).spec_can_intern(bytes@), bytes@, r),
    ;

    /// Interns `data`, which must succeed, and returns its key.
    fn get_or_intern(&mut self, data: &Data) -> (k: Key)
        requires
            old(self).spec_can_intern(data.spec_data_bytes()),
        ensures
            intern_outcome::<Key, Data, Self, Self::Error>(*old(self), *final(self), old(self).spec_can_intern(data.spec_data_bytes()), data.spec_data_bytes(), Ok::<Key, Self::Error>(k)),
    {
        match self.try_get_or_intern(data) {
            Ok(k) => k,
            Err(_) => vstd::pervasive::unreached(),
        }
    }

    /// Interns canonical bytes, which must succeed, and returns their key.
    fn get_or_intern_bytes(&mut self, bytes: &[u8]) -> (k: Key)
        requires
            old(self).spec_can_intern(bytes@),
        ensures
            intern_outcome::<Key, Data, Self, Self::Error>(*old(self), *final(self), old(self).spec_can_intern(bytes@), bytes@, Ok::<Key, Self::Error>(k)),
    {
        match self.try_get_or_intern_bytes(bytes) {
            Ok(k) => k,
            Err(_) => vstd::pervasive::unreached(),
        }
    }
}

} // verus!
